//! Counting occurrences in sequences.
use vstd::prelude::*;

use crate::heap_tree::{lemma_seq_sum_update, seq_sum};

verus! {

/// How many times `x` occurs in `s`.
pub open spec fn occurrences<T>(s: Seq<T>, x: T) -> nat
    decreases s.len(),
{
    if s.len() == 0 {
        0
    } else {
        occurrences(s.drop_last(), x) + if s.last() == x {
            1nat
        } else {
            0nat
        }
    }
}

pub proof fn lemma_occurrences_push<T>(s: Seq<T>, y: T, x: T)
    ensures
        occurrences(s.push(y), x) == occurrences(s, x) + if y == x {
            1nat
        } else {
            0nat
        },
{
    assert(s.push(y).drop_last() =~= s);
}

/// A value occurs exactly when it is an element.
pub proof fn lemma_occurrences_contains<T>(s: Seq<T>, x: T)
    ensures
        occurrences(s, x) > 0 <==> exists|i: int| 0 <= i < s.len() && s[i] == x,
    decreases s.len(),
{
    if s.len() > 0 {
        lemma_occurrences_contains(s.drop_last(), x);
        if exists|i: int| 0 <= i < s.drop_last().len() && s.drop_last()[i] == x {
            let i = choose|i: int| 0 <= i < s.drop_last().len() && s.drop_last()[i] == x;
            assert(s[i] == x);
        }
        if exists|i: int| 0 <= i < s.len() && s[i] == x {
            let i = choose|i: int| 0 <= i < s.len() && s[i] == x;
            if i < s.len() - 1 {
                assert(s.drop_last()[i] == x);
            }
        }
    }
}

/// A prefix holds no more occurrences than the whole.
pub proof fn lemma_occurrences_prefix<T>(s: Seq<T>, i: int, x: T)
    requires
        0 <= i <= s.len(),
    ensures
        occurrences(s.take(i), x) <= occurrences(s, x),
    decreases s.len() - i,
{
    if i < s.len() {
        lemma_occurrences_prefix(s, i + 1, x);
        assert(s.take(i + 1).drop_last() =~= s.take(i));
    } else {
        assert(s.take(i) =~= s);
    }
}

pub proof fn lemma_occurrences_take_step<T>(s: Seq<T>, i: int, x: T)
    requires
        0 <= i < s.len(),
    ensures
        occurrences(s.take(i + 1), x) == occurrences(s.take(i), x) + if s[i] == x {
            1nat
        } else {
            0nat
        },
{
    assert(s.take(i + 1).drop_last() =~= s.take(i));
}

/// Renaming positions by distinct keys keeps the counts.
pub proof fn lemma_occurrences_rename<K>(s: Seq<int>, keys: Seq<K>, p: int)
    requires
        forall|i: int| 0 <= i < s.len() ==> 0 <= #[trigger] s[i] < keys.len(),
        forall|a: int, b: int|
            0 <= a < keys.len() && 0 <= b < keys.len() && #[trigger] keys[a] == #[trigger] keys[b]
                ==> a == b,
        0 <= p < keys.len(),
    ensures
        occurrences(s.map_values(|q: int| keys[q]), keys[p]) == occurrences(s, p),
    decreases s.len(),
{
    if s.len() > 0 {
        lemma_occurrences_rename(s.drop_last(), keys, p);
        assert(s.map_values(|q: int| keys[q]).drop_last() =~= s.drop_last().map_values(
            |q: int| keys[q],
        ));
    }
}

/// How many times each of `0..n` occurs in `s`.
pub open spec fn tally(s: Seq<int>, n: nat) -> Seq<nat> {
    Seq::new(n, |e: int| occurrences(s, e))
}

/// When every element of `s` lies in `0..n`, the tally adds up to the
/// length of `s`.
pub proof fn lemma_tally_sum(s: Seq<int>, n: nat)
    requires
        forall|i: int| 0 <= i < s.len() ==> 0 <= #[trigger] s[i] < n,
    ensures
        seq_sum(tally(s, n)) == s.len(),
    decreases s.len(),
{
    if s.len() == 0 {
        assert forall|e: int| 0 <= e < n implies #[trigger] tally(s, n)[e] == 0 by {}
        crate::heap_tree::lemma_seq_sum_zero(tally(s, n));
    } else {
        let p = s.drop_last();
        let x = s.last();
        assert(p.push(x) =~= s);
        lemma_tally_sum(p, n);
        assert forall|e: int| 0 <= e < n implies #[trigger] tally(s, n)[e] == tally(p, n).update(
            x,
            tally(p, n)[x] + 1,
        )[e] by {
            lemma_occurrences_push(p, x, e);
        }
        assert(tally(s, n) =~= tally(p, n).update(x, tally(p, n)[x] + 1));
        lemma_seq_sum_update(tally(p, n), x, tally(p, n)[x] + 1);
    }
}

/// The places where `x` occurs in `s`.
pub open spec fn places<T>(s: Seq<T>, x: T) -> Set<int> {
    Set::new(|k: int| 0 <= k < s.len() && s[k] == x)
}

/// `x` occurs in `s` at as many places as it occurs.
pub proof fn lemma_places_len<T>(s: Seq<T>, x: T)
    ensures
        places(s, x).finite(),
        places(s, x).len() == occurrences(s, x),
    decreases s.len(),
{
    if s.len() == 0 {
        assert(places(s, x) =~= Set::<int>::empty());
    } else {
        let p = s.drop_last();
        lemma_places_len(p, x);
        assert(p.push(s.last()) =~= s);
        lemma_occurrences_push(p, s.last(), x);
        if s.last() == x {
            assert(places(s, x) =~= places(p, x).insert(s.len() - 1));
        } else {
            assert(places(s, x) =~= places(p, x));
        }
    }
}

/// How many times each of `0..n` occurs in a list of `usize` values.
pub open spec fn tally_usize(s: Seq<usize>, n: nat) -> Seq<nat> {
    Seq::new(n, |e: int| occurrences(s, e as usize))
}

/// When every value of `s` lies below `n`, the tally adds up to the length
/// of `s`.
pub proof fn lemma_tally_usize_sum(s: Seq<usize>, n: nat)
    requires
        n <= usize::MAX + 1,
        forall|i: int| 0 <= i < s.len() ==> #[trigger] s[i] < n,
    ensures
        seq_sum(tally_usize(s, n)) == s.len(),
    decreases s.len(),
{
    if s.len() == 0 {
        crate::heap_tree::lemma_seq_sum_zero(tally_usize(s, n));
    } else {
        let p = s.drop_last();
        let x = s.last();
        assert(p.push(x) =~= s);
        lemma_tally_usize_sum(p, n);
        assert forall|e: int| 0 <= e < n implies #[trigger] tally_usize(s, n)[e] == tally_usize(p, n).update(
            x as int,
            tally_usize(p, n)[x as int] + 1,
        )[e] by {
            lemma_occurrences_push(p, x, e as usize);
        }
        assert(tally_usize(s, n) =~= tally_usize(p, n).update(x as int, tally_usize(p, n)[x as int] + 1));
        lemma_seq_sum_update(tally_usize(p, n), x as int, tally_usize(p, n)[x as int] + 1);
    }
}

} // verus!
