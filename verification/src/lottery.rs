use std::collections::hash_map::{Values, ValuesMut};
use std::collections::HashMap;
use std::hash::{BuildHasher, Hash, RandomState};

use rand::Rng;

use crate::draw::{
    walked_slots, walked_tree,
    awarded_to, draw_by_array, draw_by_tree, draw_result, dropped_keys, lemma_award, tickets_by_key,
    lemma_awarded_rename, reaches,
};
use crate::entrant::{keys_of, reported_tickets, ticket_counts, Entrant};
use crate::heap_tree::{floor_log2, floor_log2_of, seq_sum};
use crate::keyed_map::{
    empty_with_capacity_and_hasher, empty_with_hasher, insert_all, keyed, lemma_keys_sum, pulled_from, put_all,
    take_all, values_mut_of,
};
use crate::prize::Prize;
use crate::random::{Draw, ShuffledSlots};
use crate::prize_queue::{expand, refs_of};
use crate::space_efficient_shuffler::{as_nats, checked_total};
use vstd::prelude::*;
use vstd::std_specs::hash::spec_values_iter;
use vstd::std_specs::iter::IteratorSpec;

verus! {

#[verifier::reject_recursive_types(K)]
#[verifier::reject_recursive_types(S)]
pub struct Lottery<K, E, S = RandomState> where K: Hash + Eq {
    /// Determine whether the lottery has been shuffled and done.
    shuffled: bool,
    /// The entrants in a hash map, use .entrants() to get the result
    entrants: HashMap<K, E, S>,
    /// The prizes, the lower the index, the higher the priority.
    prizes: Vec<Prize>,
    /// Who won the prize items handed out so far, in the order of the items.
    winners: Ghost<Seq<K>>,
    /// The keys of the entrants when the last draw began, in the order the
    /// draw took them.
    drawn_keys: Ghost<Seq<K>>,
    /// The ticket count each of them reported then, in that order.
    drawn_counts: Ghost<Seq<nat>>,
    /// The entrants that turned down a prize in the last draw and so left it
    /// with tickets left.
    dropped: Ghost<Set<K>>,
    /// Whether the last draw went by shuffled ticket slots (else by the tree).
    by_slots: Ghost<bool>,
    /// How the last draw by slots went: the winners by position in the
    /// list of drawn keys, the positions that left the draw, the slots it
    /// walked and how far.
    slot_walk: Ghost<Option<(Seq<int>, Set<int>, ShuffledSlots, int)>>,
    /// How a draw by the tree went: the winners by position in the list of
    /// drawn keys, the positions that left the draw, and the walk down the
    /// tree that handed out each item.
    tree_walk: Ghost<Option<(Seq<int>, Set<int>, Seq<(Set<int>, Seq<(int, Draw)>)>)>>,
}

impl<K: Hash + Eq, E, S> Lottery<K, E, S> {
    /// A draw with the given map of entrants, no prize, not shuffled.
    fn from_map(entrants: HashMap<K, E, S>) -> (r: Self)
        ensures
            r.entrants_view() == entrants@,
            r.prizes_view() == Seq::<Prize>::empty(),
            r.winners_view() == Seq::<K>::empty(),
            !r.shuffled_view(),
    {
        Self {
            entrants,
            prizes: Vec::new(),
            shuffled: false,
            winners: Ghost(Seq::empty()),
            drawn_keys: Ghost(Seq::empty()),
            drawn_counts: Ghost(Seq::empty()),
            dropped: Ghost(Set::empty()),
            by_slots: Ghost(false),
            slot_walk: Ghost(None),
            tree_walk: Ghost(None),
        }
    }

    /// The entrants by key.
    pub closed spec fn entrants_view(&self) -> Map<K, E> {
        self.entrants@
    }

    /// The prizes, the biggest first.
    pub closed spec fn prizes_view(&self) -> Seq<Prize> {
        self.prizes@
    }

    /// How many entrants the map holds.
    pub closed spec fn entrant_count(&self) -> nat {
        self.entrants.len() as nat
    }

    /// Whether the prizes have been distributed.
    pub closed spec fn shuffled_view(&self) -> bool {
        self.shuffled
    }

    /// The keys of the entrants that won the prize items handed out so far,
    /// in the order the items were handed out.
    pub closed spec fn winners_view(&self) -> Seq<K> {
        self.winners@
    }

    /// The keys of the entrants when the last draw began, in the order the
    /// draw took them.
    pub closed spec fn drawn_keys_view(&self) -> Seq<K> {
        self.drawn_keys@
    }

    /// The ticket count each entrant reported when the last draw began, in
    /// the order of [`Self::drawn_keys_view`].
    pub closed spec fn drawn_counts_view(&self) -> Seq<nat> {
        self.drawn_counts@
    }

    /// The entrants that turned down a prize in the last draw and so left it
    /// with tickets left.
    pub closed spec fn dropped_view(&self) -> Set<K> {
        self.dropped@
    }

    /// Whether the last draw went by shuffled ticket slots rather than by
    /// the tree of ticket counts.
    pub closed spec fn drawn_by_slots_view(&self) -> bool {
        self.by_slots@
    }

    /// How the last draw by slots went: the winners by position in
    /// [`Self::drawn_keys_view`], the positions that left the draw, the
    /// slots it walked (in the order the generator shuffled them) and how
    /// far.
    pub closed spec fn slot_walk_view(&self) -> Option<(Seq<int>, Set<int>, ShuffledSlots, int)> {
        self.slot_walk@
    }

    /// How a draw by the tree went: the winners by position in the list
    /// of drawn keys, the positions that left the draw, and the walk down
    /// the tree (with the generator's draws) that handed out each item.
    pub closed spec fn tree_walk_view(&self) -> Option<(Seq<int>, Set<int>, Seq<(Set<int>, Seq<(int, Draw)>)>)> {
        self.tree_walk@
    }

    /// With keys that behave as vstd's model of hash map keys, the count of
    /// entrants is the size of the map.
    pub proof fn lemma_entrant_count(&self)
        ensures
            keyed::<K, S>() ==> self.entrant_count() == self.entrants_view().len(),
    {
    }

    /// The iterator over the entrants that [`Lottery::entrants`] returns.
    pub closed spec fn entrants_iter(&self) -> Values<'_, K, E> {
        spec_values_iter(&self.entrants)
    }

    /// With keys that behave as vstd's model of hash map keys, the iterator
    /// of [`Lottery::entrants`] yields each of them once.
    pub proof fn lemma_entrants_iter(&self)
        ensures
            keyed::<K, S>() ==> {
                &&& self.entrants_iter().remaining().len() == self.entrants_view().dom().len()
                &&& self.entrants_iter().remaining().unref().to_set() == self.entrants_view().values()
            },
    {
    }
}

impl<'entrant, K, E> Default for Lottery<K, E> where K: Hash + Eq, E: Entrant<'entrant, Key = K> {
    fn default() -> (r: Self)
        ensures
            r.entrants_view() == Map::<K, E>::empty(),
            r.prizes_view() == Seq::<Prize>::empty(),
            r.winners_view() == Seq::<K>::empty(),
            !r.shuffled_view(),
    {
        Self::new()
    }
}

impl<'entrant, K, E> Lottery<K, E> where K: Hash + Eq, E: Entrant<'entrant, Key = K> {
    /// The map of entrants is finite.
    pub proof fn lemma_entrants_finite(&self)
        ensures
            self.entrants_view().dom().finite(),
    {
    }

    pub fn new() -> (r: Self)
        ensures
            r.entrants_view() == Map::<K, E>::empty(),
            r.prizes_view() == Seq::<Prize>::empty(),
            r.winners_view() == Seq::<K>::empty(),
            !r.shuffled_view(),
    {
        Self::from_map(HashMap::new())
    }

    pub fn with_entrant_capacity(cap: usize) -> (r: Self)
        ensures
            r.entrants_view() == Map::<K, E>::empty(),
            r.prizes_view() == Seq::<Prize>::empty(),
            r.winners_view() == Seq::<K>::empty(),
            !r.shuffled_view(),
    {
        Self::from_map(HashMap::with_capacity(cap))
    }
}

impl<'entrant, K, E, S> Lottery<K, E, S> where
    K: Hash + Eq,
    E: Entrant<'entrant, Key = K>,
    S: BuildHasher + Default,
 {
    pub fn with_entrant_capacity_and_hasher(cap: usize, hasher: S) -> (r: Self)
        ensures
            r.entrants_view() == Map::<K, E>::empty(),
            r.prizes_view() == Seq::<Prize>::empty(),
            r.winners_view() == Seq::<K>::empty(),
            !r.shuffled_view(),
    {
        Self::from_map(empty_with_capacity_and_hasher(cap, hasher))
    }

    pub fn with_hasher(hasher: S) -> (r: Self)
        ensures
            r.entrants_view() == Map::<K, E>::empty(),
            r.prizes_view() == Seq::<Prize>::empty(),
            r.winners_view() == Seq::<K>::empty(),
            !r.shuffled_view(),
    {
        Self::from_map(empty_with_hasher(hasher))
    }

    /// Check if the prize has been distributed.
    pub fn shuffled(&self) -> (r: bool)
        ensures
            r == self.shuffled_view(),
    {
        self.shuffled
    }

    /// Add a entrant to the lottery.
    /// When the keys collide, it would return the old entrant.
    pub fn add_entrant(&mut self, entrant: E) -> (replaced: Option<E>)
        ensures
            final(self).prizes_view() == old(self).prizes_view(),
            final(self).shuffled_view() == old(self).shuffled_view(),
            final(self).winners_view() == old(self).winners_view(),
            keyed::<K, S>() ==> {
                let k = entrant.key_spec();
                &&& final(self).entrants_view() == old(self).entrants_view().insert(k, entrant)
                &&& match replaced {
                    Some(e) => old(self).entrants_view().contains_key(k) && e == old(self).entrants_view()[k],
                    None => !old(self).entrants_view().contains_key(k),
                }
            },
    {
        let k = entrant.key();
        let ghost key = k;
        let replaced = self.entrants.insert(k, entrant);
        proof {
            if keyed::<K, S>() {
                assert(self.entrants_view() == old(self).entrants_view().insert(key, entrant));
                assert(match replaced {
                    Some(e) => old(self).entrants_view().contains_key(key) && e == old(self).entrants_view()[key],
                    None => !old(self).entrants_view().contains_key(key),
                });
            }
        }
        replaced
    }

    /// Set all the entrants in the lottery.
    /// It is possible to have less entrant if the keys collide.
    pub fn set_entrants(&mut self, entrants: Vec<E>)
        ensures
            final(self).prizes_view() == old(self).prizes_view(),
            final(self).shuffled_view() == old(self).shuffled_view(),
            final(self).winners_view() == old(self).winners_view(),
            keyed::<K, S>() ==> final(self).entrants_view() == insert_all(keys_of(entrants@), entrants@),
    {
        self.entrants.clear();
        let ghost items = entrants@;
        let ghost mut keys: Seq<K> = Seq::empty();
        for entrant in it: entrants.into_iter()
            invariant
                it.seq() == items,
                self.prizes@ == old(self).prizes@,
                self.shuffled == old(self).shuffled,
                self.winners == old(self).winners,
                keys == keys_of(items.take(it.index() as int)),
                keyed::<K, S>() ==> self.entrants@ == insert_all(keys, items.take(it.index() as int)),
        {
            let k = entrant.key();
            proof {
                let t = items.take(it.index() + 1);
                assert(t.drop_last() =~= items.take(it.index() as int));
                assert(keys.push(k).take(it.index() as int) =~= keys);
                assert(keys_of(t) =~= keys.push(k));
                assert(t.last() == entrant);
                keys = keys.push(k);
            }
            self.entrants.insert(k, entrant);
        }
        proof {
            assert(items.take(items.len() as int) =~= items);
        }
    }

    /// Add a prize to the lottery.
    /// The prior added prize would be considered as bigger prize.
    pub fn add_prize(&mut self, prize: Prize)
        ensures
            final(self).prizes_view() == old(self).prizes_view().push(prize),
            final(self).entrants_view() == old(self).entrants_view(),
            final(self).shuffled_view() == old(self).shuffled_view(),
            final(self).winners_view() == old(self).winners_view(),
    {
        self.prizes.push(prize);
    }

    /// Set the whole prizes of the lottery.
    /// The prize in position 0 would be the biggest prize, while the last prize would be the
    /// smallest prize.
    pub fn set_prizes(&mut self, prizes: Vec<Prize>)
        ensures
            final(self).prizes_view() == prizes@,
            final(self).entrants_view() == old(self).entrants_view(),
            final(self).shuffled_view() == old(self).shuffled_view(),
            final(self).winners_view() == old(self).winners_view(),
    {
        self.prizes.clear();
        self.prizes = prizes;
    }

    /// Returns the entrants.
    pub fn entrants(&self) -> (r: Values<'_, K, E>)
        ensures
            keyed::<K, S>() ==> r == self.entrants_iter(),
    {
        self.entrants.values()
    }

    /// Returns the entrants, which are mutable.
    pub fn entrants_mut(&mut self) -> (r: ValuesMut<'_, K, E>)
        ensures
            final(self).entrants_view().dom() == old(self).entrants_view().dom(),
            final(self).prizes_view() == old(self).prizes_view(),
            final(self).shuffled_view() == old(self).shuffled_view(),
            final(self).winners_view() == old(self).winners_view(),
    {
        values_mut_of(&mut self.entrants)
    }
}

/// How [`Lottery`] picks the winners.
enum DrawMethod {
    /// By a tree of the ticket counts.
    Tree,
    /// By shuffled ticket slots.
    Array,
    /// By shuffled ticket slots when the tickets add up to at most the
    /// given estimate, else by the tree.
    ByEstimate(usize),
}

/// A draw on `before` that leaves `after`: the lottery is marked shuffled,
/// the prizes stay, the winners so far stay first, and the entrants stay
/// under the same keys while the new winners are an award of the prize
/// items among them, none winning more items than the tickets it reported,
/// and the draw stopped only for want of items or of tickets (see
/// [`draw_result`]).
pub open spec fn drawn_from<'a, K: Hash + Eq, E: Entrant<'a, Key = K>, S>(
    before: Lottery<K, E, S>,
    after: Lottery<K, E, S>,
) -> bool {
    &&& after.shuffled_view()
    &&& after.prizes_view() == before.prizes_view()
    &&& after.winners_view().len() >= before.winners_view().len()
    &&& after.winners_view().take(before.winners_view().len() as int) == before.winners_view()
    &&& keyed::<K, S>() ==> {
        &&& after.entrants_view().dom() == before.entrants_view().dom()
        &&& draw_result(
            before.entrants_view(),
            before.prizes_view(),
            after.winners_view().skip(before.winners_view().len() as int),
            after.drawn_keys_view(),
            after.drawn_counts_view(),
            after.dropped_view(),
        )
        &&& forall|i: int|
            0 <= i < after.drawn_keys_view().len() ==> #[trigger] after.drawn_counts_view()[i]
                == before.entrants_view()[after.drawn_keys_view()[i]].tickets_spec()
        &&& forall|k: K|
            #[trigger] before.entrants_view().contains_key(k) ==> reaches(
                before.entrants_view()[k],
                awarded_to(
                    after.winners_view().skip(before.winners_view().len() as int),
                    k,
                    refs_of(expand(before.prizes_view())),
                ),
                after.entrants_view()[k],
            )
        &&& forall|k: K| #[trigger] after.dropped_view().contains(k) ==> after.entrants_view().contains_key(k)
        &&& forall|k: K, q: &'a Prize|
            after.dropped_view().contains(k) ==> !#[trigger] after.entrants_view()[k].accepts_spec(q)
    }
}

/// `after` holds what `before` held.
pub open spec fn unchanged<K: Hash + Eq, E, S>(before: Lottery<K, E, S>, after: Lottery<K, E, S>) -> bool {
    &&& after.entrants_view() == before.entrants_view()
    &&& after.prizes_view() == before.prizes_view()
    &&& after.shuffled_view() == before.shuffled_view()
    &&& after.winners_view() == before.winners_view()
    &&& after.drawn_keys_view() == before.drawn_keys_view()
    &&& after.drawn_counts_view() == before.drawn_counts_view()
    &&& after.dropped_view() == before.dropped_view()
    &&& after.drawn_by_slots_view() == before.drawn_by_slots_view()
}

/// `after` holds what `before` held; the entrants too, when the keys behave
/// as vstd's model of hash map keys.
pub open spec fn kept<K: Hash + Eq, E, S>(before: Lottery<K, E, S>, after: Lottery<K, E, S>) -> bool {
    &&& keyed::<K, S>() ==> after.entrants_view() == before.entrants_view()
    &&& after.prizes_view() == before.prizes_view()
    &&& after.shuffled_view() == before.shuffled_view()
    &&& after.winners_view() == before.winners_view()
    &&& after.drawn_keys_view() == before.drawn_keys_view()
    &&& after.drawn_counts_view() == before.drawn_counts_view()
    &&& after.dropped_view() == before.dropped_view()
    &&& after.drawn_by_slots_view() == before.drawn_by_slots_view()
}

/// The draw from `before` to `after` went by slots: the new winners are
/// those of a walk along ticket slots that the generator shuffled.
pub open spec fn slot_drawn<K: Hash + Eq, E, S>(before: Lottery<K, E, S>, after: Lottery<K, E, S>) -> bool {
    &&& after.drawn_by_slots_view()
    &&& after.slot_walk_view() matches Some(w) && {
        &&& walked_slots(w.0, w.1, w.2@, w.3, after.drawn_counts_view(), after.prizes_view())
        &&& forall|i: int| 0 <= i < w.0.len() ==> 0 <= #[trigger] w.0[i] < after.drawn_keys_view().len()
        &&& after.winners_view() == before.winners_view() + w.0.map_values(
            |q: int| after.drawn_keys_view()[q],
        )
    }
}

/// The draw from `before` to `after` went by the tree: each new winner is
/// the one a walk down the tree, steered by the generator's draws, led to.
pub open spec fn tree_drawn<K: Hash + Eq, E, S>(before: Lottery<K, E, S>, after: Lottery<K, E, S>) -> bool {
    &&& !after.drawn_by_slots_view()
    &&& after.tree_walk_view() matches Some(w) && {
        &&& walked_tree(w.0, w.1, w.2, after.drawn_counts_view())
        &&& forall|i: int| 0 <= i < w.0.len() ==> 0 <= #[trigger] w.0[i] < after.drawn_keys_view().len()
        &&& after.winners_view() == before.winners_view() + w.0.map_values(
            |q: int| after.drawn_keys_view()[q],
        )
    }
}

/// Taken out in some order, the entrants of `m` report tickets that add up
/// to more than `bound`.
pub open spec fn tickets_exceed<'a, K, E: Entrant<'a>>(m: Map<K, E>, bound: nat) -> bool {
    exists|ks: Seq<K>, es: Seq<E>| #[trigger] pulled_from(m, ks, es) && seq_sum(reported_tickets(es)) > bound
}

/// How a draw by the estimate `bound` went from `before` to `after`: when
/// not yet shuffled, it draws by the slots exactly when the reported
/// tickets add up to at most `bound`; when shuffled, it draws again by the
/// slots when they do, and otherwise leaves the lottery as it was (the tree
/// never draws twice).
pub open spec fn drawn_by_estimate<'a, K: Hash + Eq, E: Entrant<'a, Key = K>, S>(
    before: Lottery<K, E, S>,
    after: Lottery<K, E, S>,
    bound: nat,
) -> bool {
    &&& !before.shuffled_view() ==> {
        &&& drawn_from(before, after)
        &&& (after.drawn_by_slots_view() <==> seq_sum(after.drawn_counts_view()) <= bound)
        &&& after.drawn_by_slots_view() ==> slot_drawn(before, after)
        &&& !after.drawn_by_slots_view() ==> tree_drawn(before, after)
    }
    &&& before.shuffled_view() ==> {
        ||| {
            &&& drawn_from(before, after)
            &&& slot_drawn(before, after)
            &&& seq_sum(after.drawn_counts_view()) <= bound
        }
        ||| {
            &&& kept(before, after)
            &&& keyed::<K, S>() ==> tickets_exceed(before.entrants_view(), bound)
        }
    }
}

/// A shuffle by the estimate `bound` of an already shuffled lottery whose
/// entrants hold more tickets than `bound` leaves it as it was: the tree
/// never draws twice, in whatever order the entrants are taken out.
pub proof fn lemma_no_second_tree_draw<'a, K: Hash + Eq, E: Entrant<'a, Key = K>, S>(
    before: Lottery<K, E, S>,
    after: Lottery<K, E, S>,
    bound: nat,
)
    requires
        drawn_by_estimate(before, after, bound),
        before.shuffled_view(),
        keyed::<K, S>(),
        tickets_exceed(before.entrants_view(), bound),
    ensures
        kept(before, after),
{
    if !kept(before, after) {
        let m = before.entrants_view();
        let (ks, es) = choose|ks: Seq<K>, es: Seq<E>|
            #[trigger] pulled_from(m, ks, es) && seq_sum(reported_tickets(es)) > bound;
        let f = |k: K| m[k].tickets_spec() as nat;
        let dk = after.drawn_keys_view();
        let dc = after.drawn_counts_view();
        assert(dc =~= dk.map_values(f));
        assert(reported_tickets(es) =~= ks.map_values(f));
        assert forall|k: K| dk.contains(k) <==> ks.contains(k) by {
            if dk.contains(k) {
                let i = choose|i: int| 0 <= i < dk.len() && dk[i] == k;
                assert(tickets_by_key(dk, dc).dom().contains(k));
                assert(m.contains_key(k));
            }
            if ks.contains(k) {
                assert(m.contains_key(k));
                assert(tickets_by_key(dk, dc).dom().contains(k));
            }
        }
        lemma_keys_sum(dk, ks, f);
    }
}

impl<'entrant, 'prize, K, E, S> Lottery<K, E, S> where
    K: Hash + Eq,
    E: Entrant<'entrant, Key = K>,
    S: BuildHasher + Default,
    'prize: 'entrant,
 {
    /// Takes the entrants out of the map, draws the winners among them as
    /// `method` says, and puts them back. By the estimate, an already
    /// shuffled lottery whose draw would go by the tree is left as it was.
    fn draw<R: Rng + ?Sized>(&'prize mut self, rng: &mut R, method: DrawMethod)
        requires
            method is Tree ==> !old(self).shuffled_view(),
        ensures
            method !is ByEstimate || !old(self).shuffled_view() ==> drawn_from(*old(self), *final(self)),
            method is ByEstimate && old(self).shuffled_view() ==> drawn_from(*old(self), *final(self)) || {
                &&& final(self).prizes_view() == old(self).prizes_view()
                &&& final(self).shuffled_view()
                &&& final(self).winners_view() == old(self).winners_view()
                &&& keyed::<K, S>() ==> final(self).entrants_view() == old(self).entrants_view()
            },
            method is Tree ==> tree_drawn(*old(self), *final(self)),
            method is Array ==> slot_drawn(*old(self), *final(self)),
            method matches DrawMethod::ByEstimate(bound) ==> drawn_by_estimate(
                *old(self),
                *final(self),
                bound as nat,
            ),
    {
        let ghost before = self.entrants@;
        let (keys, mut ents) = take_all(&mut self.entrants);
        let ghost keys0 = keys@;
        let ghost ents0 = ents@;
        let counts = ticket_counts(&ents);
        let (by_array, num_tickets) = match method {
            DrawMethod::Tree => (false, 0),
            DrawMethod::Array => match checked_total(&counts) {
                Some(total) => (true, total),
                None => (true, 0),
            },
            DrawMethod::ByEstimate(tree_est) => match checked_total(&counts) {
                Some(array_est) => (array_est <= tree_est, array_est),
                None => (false, 0),
            },
        };
        proof {
            assert(reported_tickets(ents0) =~= as_nats(counts@));
        }
        if !by_array && self.shuffled {
            put_all(&mut self.entrants, keys, ents);
            proof {
                if keyed::<K, S>() {
                    assert(self.entrants@ =~= before);
                    assert(pulled_from(before, keys0, ents0));
                }
            }
            return ;
        }
        self.shuffled = true;
        let prizes: &'entrant Vec<Prize> = &self.prizes;
        let mut walk: Ghost<Option<(Seq<int>, Set<int>, ShuffledSlots, int)>> = Ghost(None);
        let mut twalk: Ghost<Option<(Seq<int>, Set<int>, Seq<(Set<int>, Seq<(int, Draw)>)>)>> = Ghost(None);
        let won = if by_array {
            let w = draw_by_array(&mut ents, &counts, prizes, rng, num_tickets);
            walk = Ghost(Some(w@));
            Ghost((w@.0, w@.1))
        } else {
            let w = draw_by_tree(&mut ents, &counts, prizes, rng);
            twalk = Ghost(Some(w@));
            Ghost((w@.0, w@.1))
        };
        let ghost new_winners = won@.0.map_values(|q: int| keys0[q]);
        proof {
            if keyed::<K, S>() {
                lemma_award(before, keys0, ents0, as_nats(counts@), self.prizes@, won@.0, won@.1);
            }
        }
        let ghost ents1 = ents@;
        put_all(&mut self.entrants, keys, ents);
        self.winners = Ghost(self.winners@ + new_winners);
        self.drawn_keys = Ghost(keys0);
        self.drawn_counts = Ghost(as_nats(counts@));
        self.dropped = Ghost(dropped_keys(keys0, won@.1));
        self.by_slots = Ghost(by_array);
        self.slot_walk = walk;
        self.tree_walk = twalk;
        proof {
            let w = self.winners@;
            assert(w.skip(old(self).winners@.len() as int) =~= new_winners);
            assert(w.take(old(self).winners@.len() as int) =~= old(self).winners@);
            if keyed::<K, S>() {
                assert(self.entrants@.dom() =~= before.dom());
                assert forall|i: int| 0 <= i < keys0.len() implies #[trigger] as_nats(counts@)[i]
                    == before[keys0[i]].tickets_spec() by {
                    assert(before[keys0[i]] == ents0[i]);
                }
                let urefs = refs_of::<'entrant>(expand(self.prizes@));
                assert forall|k: K| #[trigger] before.contains_key(k) implies reaches(
                    before[k],
                    awarded_to(new_winners, k, urefs),
                    self.entrants@[k],
                ) by {
                    let i = choose|i: int| 0 <= i < keys0.len() && #[trigger] keys0[i] == k;
                    lemma_awarded_rename(won@.0, keys0, urefs, i);
                    assert(self.entrants@[keys0[i]] == ents1[i]);
                    assert(before[keys0[i]] == ents0[i]);
                }
                assert forall|k: K| #[trigger] self.dropped@.contains(k) implies self.entrants@.contains_key(k)
                    && forall|q: &'entrant Prize| !#[trigger] self.entrants@[k].accepts_spec(q) by {
                    let i = choose|i: int| 0 <= i < keys0.len() && won@.1.contains(i) && keys0[i] == k;
                    assert(self.entrants@[keys0[i]] == ents1[i]);
                }
            }
        }
    }

    /// Shuffle and distribute the prizes to the entrants: by the shuffled
    /// slots of [`Lottery::shuffle_array`] when the entrants hold no more
    /// tickets than `3 * n * floor(log2(n))` for `n` entrants, else by the
    /// tree of [`Lottery::shuffle_tree`] (also when the tickets add up to
    /// more than `usize::MAX`), which leaves an already shuffled lottery
    /// as it was.
    pub fn shuffle<R: Rng + ?Sized>(&'prize mut self, rng: &mut R)
        requires
            old(self).entrant_count() > 0,
            3 * old(self).entrant_count() * floor_log2(old(self).entrant_count()) <= usize::MAX,
        ensures
            !old(self).shuffled_view() ==> drawn_from(*old(self), *final(self)),
            old(self).shuffled_view() ==> drawn_from(*old(self), *final(self)) || {
                &&& final(self).prizes_view() == old(self).prizes_view()
                &&& final(self).shuffled_view()
                &&& final(self).winners_view() == old(self).winners_view()
                &&& keyed::<K, S>() ==> final(self).entrants_view() == old(self).entrants_view()
            },
            drawn_by_estimate(
                *old(self),
                *final(self),
                3 * old(self).entrant_count() * floor_log2(old(self).entrant_count()),
            ),
    {
        // The boundary is a guess.
        // Let `u` be the number of entrants, `t` be the number of tickets, `p` be the number of prizes.
        // Assuming the size of "tree" would require 24 * 2 * u * log(u),
        // while the size of "array" would require 16 * t.
        // We might compare `3 * u * log(u)` with `t`.
        // `tree_factor` is an engineering factor for adjusting the boundary.
        let n = self.entrants.len();
        let log = floor_log2_of(n);
        proof {
            assert(3 * n <= 3 * n * log || log == 0) by (nonlinear_arith);
        }
        let tree_est = 3 * n * log;
        let tree_factor: usize = 1;
        self.draw(rng, DrawMethod::ByEstimate(tree_est * tree_factor));
    }

    /// Shuffle the branches and distribute the prizes to the entrants.
    /// When their tickets add up to more than `usize::MAX`, no prize is handed out.
    pub fn shuffle_tree<R: Rng + ?Sized>(&'prize mut self, rng: &mut R)
        ensures
            old(self).shuffled_view() ==> unchanged(*old(self), *final(self)),
            !old(self).shuffled_view() ==> drawn_from(*old(self), *final(self)),
            !old(self).shuffled_view() ==> !final(self).drawn_by_slots_view(),
            !old(self).shuffled_view() ==> tree_drawn(*old(self), *final(self)),
    {
        if self.shuffled {
            return ;
        }
        self.draw(rng, DrawMethod::Tree);
    }

    /// Shuffle the slots and distribute the prizes to the entrants.
    /// The slots are drawn whether or not the lottery was shuffled before.
    pub fn shuffle_array<R: Rng + ?Sized>(&'prize mut self, rng: &mut R)
        ensures
            drawn_from(*old(self), *final(self)),
            final(self).drawn_by_slots_view(),
            slot_drawn(*old(self), *final(self)),
    {
        self.draw(rng, DrawMethod::Array);
    }
}

} // verus!
