//! A cursor over the prizes to hand out, either one item per prize or
//! `count` items per prize, in the order of the prizes.
use crate::heap_tree::seq_sum;
use crate::prize::Prize;
use vstd::prelude::*;

verus! {

/// Every prize repeated `count` times, in order.
pub open spec fn expand(ps: Seq<Prize>) -> Seq<Prize>
    decreases ps.len(),
{
    if ps.len() == 0 {
        Seq::empty()
    } else {
        expand(ps.drop_last()) + Seq::new(ps.last().count_view(), |_i: int| ps.last())
    }
}

/// The counts of the prizes, in order.
pub open spec fn prize_counts(ps: Seq<Prize>) -> Seq<nat> {
    ps.map_values(|p: Prize| p.count_view())
}

/// The prizes hand out as many items as their counts add up to.
pub proof fn lemma_expand_len(ps: Seq<Prize>)
    ensures
        expand(ps).len() == seq_sum(prize_counts(ps)),
    decreases ps.len(),
{
    if ps.len() > 0 {
        lemma_expand_len(ps.drop_last());
        assert(prize_counts(ps).drop_last() =~= prize_counts(ps.drop_last()));
    }
}

proof fn lemma_expand_step(ps: Seq<Prize>, i: int)
    requires
        0 <= i < ps.len(),
    ensures
        expand(ps.take(i + 1)) == expand(ps.take(i)) + Seq::new(
            ps[i].count_view(),
            |_k: int| ps[i],
        ),
{
    assert(ps.take(i + 1).drop_last() =~= ps.take(i));
}

/// The expansion of a prefix is a prefix of the expansion.
proof fn lemma_expand_prefix(ps: Seq<Prize>, i: int, j: int)
    requires
        0 <= i <= j <= ps.len(),
    ensures
        expand(ps.take(i)).len() <= expand(ps.take(j)).len(),
        forall|k: int|
            0 <= k < expand(ps.take(i)).len() ==> expand(ps.take(j))[k] == expand(ps.take(i))[k],
    decreases j - i,
{
    if i < j {
        lemma_expand_prefix(ps, i, j - 1);
        lemma_expand_step(ps, j - 1);
    }
}

/// References to the items of a list, in order.
pub open spec fn refs_of<'a>(s: Seq<Prize>) -> Seq<&'a Prize> {
    Seq::new(s.len(), |i: int| &s[i])
}

/// Hands out the prizes of a borrowed list in order: each prize once, or
/// each prize as many times as its count.
pub struct PrizeQueue<'p> {
    prizes: &'p Vec<Prize>,
    by_count: bool,
    idx: usize,
    taken: usize,
}

impl<'p> PrizeQueue<'p> {
    /// The items in the order they are handed out.
    pub closed spec fn units(&self) -> Seq<Prize> {
        if self.by_count {
            expand(self.prizes@)
        } else {
            self.prizes@
        }
    }

    /// The items in the order they are handed out, as references into the
    /// borrowed list.
    pub open spec fn unit_refs(&self) -> Seq<&'p Prize> {
        refs_of(self.units())
    }

    /// How many items were handed out so far.
    pub closed spec fn position(&self) -> int {
        if self.by_count {
            expand(self.prizes@.take(self.idx as int)).len() + self.taken
        } else {
            self.idx as int
        }
    }

    pub closed spec fn wf(&self) -> bool {
        &&& self.idx <= self.prizes@.len()
        &&& if self.by_count {
            &&& self.idx < self.prizes@.len() ==> self.taken < self.prizes@[self.idx as int].count_view()
            &&& self.idx == self.prizes@.len() ==> self.taken == 0
        } else {
            self.taken == 0
        }
    }

    proof fn lemma_position_facts(&self)
        requires
            self.wf(),
        ensures
            0 <= self.position() <= self.units().len(),
            self.position() == self.units().len() <==> self.idx == self.prizes@.len(),
            self.idx < self.prizes@.len() ==> self.units()[self.position()]
                == self.prizes@[self.idx as int],
    {
        let ps = self.prizes@;
        if self.by_count {
            assert(ps.take(ps.len() as int) =~= ps);
            if self.idx < ps.len() {
                lemma_expand_step(ps, self.idx as int);
                lemma_expand_prefix(ps, self.idx + 1, ps.len() as int);
            }
        }
    }

    /// No more items are handed out than there are.
    pub proof fn lemma_position_bound(&self)
        requires
            self.wf(),
        ensures
            0 <= self.position() <= self.units().len(),
    {
        self.lemma_position_facts();
    }

    /// Moves past the prizes of count zero.
    fn skip_empty(&mut self)
        requires
            old(self).by_count,
            old(self).idx <= old(self).prizes@.len(),
            old(self).taken == 0,
        ensures
            final(self).wf(),
            final(self).prizes == old(self).prizes,
            final(self).by_count,
            final(self).position() == old(self).position(),
    {
        while self.idx < self.prizes.len() && self.prizes[self.idx].count() == 0
            invariant
                self.by_count,
                self.idx <= self.prizes@.len(),
                self.taken == 0,
                self.prizes == old(self).prizes,
                self.position() == old(self).position(),
            decreases self.prizes@.len() - self.idx,
        {
            proof {
                lemma_expand_step(self.prizes@, self.idx as int);
                assert(Seq::new(self.prizes@[self.idx as int].count_view(), |_k: int| self.prizes@[self.idx as int]) =~= Seq::<Prize>::empty());
            }
            self.idx = self.idx + 1;
        }
    }

    /// Each prize `count` times, starting from the first prize.
    pub fn by_count(prizes: &'p Vec<Prize>) -> (q: Self)
        ensures
            q.wf(),
            q.units() == expand(prizes@),
            q.position() == 0,
    {
        let mut q = PrizeQueue { prizes, by_count: true, idx: 0, taken: 0 };
        assert(prizes@.take(0) =~= Seq::<Prize>::empty());
        q.skip_empty();
        q
    }

    /// Each prize once, whatever its count, starting from the first prize.
    pub fn each_once(prizes: &'p Vec<Prize>) -> (q: Self)
        ensures
            q.wf(),
            q.units() == prizes@,
            q.position() == 0,
    {
        PrizeQueue { prizes, by_count: false, idx: 0, taken: 0 }
    }

    /// The next item, if any is left.
    pub fn peek(&self) -> (r: Option<&'p Prize>)
        requires
            self.wf(),
        ensures
            match r {
                Some(p) => 0 <= self.position() < self.units().len() && *p == self.units()[self.position()]
                    && p == self.unit_refs()[self.position()],
                None => self.position() == self.units().len(),
            },
    {
        proof {
            self.lemma_position_facts();
        }
        let ps: &'p Vec<Prize> = self.prizes;
        if self.idx < ps.len() {
            Some(&ps[self.idx])
        } else {
            None
        }
    }

    /// Hands out the next item.
    pub fn advance(&mut self)
        requires
            old(self).wf(),
            old(self).position() < old(self).units().len(),
        ensures
            final(self).wf(),
            final(self).units() == old(self).units(),
            final(self).position() == old(self).position() + 1,
    {
        proof {
            self.lemma_position_facts();
        }
        let n = self.prizes.len();
        if self.by_count {
            proof {
                self.prizes@[self.idx as int].lemma_count_fits();
            }
            self.taken = self.taken + 1;
            if self.taken >= self.prizes[self.idx].count() {
                proof {
                    lemma_expand_step(self.prizes@, self.idx as int);
                }
                self.idx = self.idx + 1;
                self.taken = 0;
                self.skip_empty();
            }
        } else {
            self.idx = self.idx + 1;
        }
    }
}

} // verus!
