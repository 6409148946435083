//! The complete binary tree laid out in an array: node `i` has children
//! `2i+1` and `2i+2`. A sequence `v` gives every leaf a value; `subtree_sum(v, i)`
//! is the sum of the leaf values below node `i`.
use vstd::prelude::*;

verus! {

/// The parent index of a non-root node.
pub open spec fn parent(i: int) -> int {
    (i - 1) / 2
}

/// `i` has two children in a tree of `n` nodes.
pub open spec fn is_internal(n: int, i: int) -> bool {
    0 <= i && 2 * i + 1 < n
}

/// `i` is a node of a tree of `n` nodes and has no children.
pub open spec fn is_leaf(n: int, i: int) -> bool {
    0 <= i < n && 2 * i + 1 >= n
}

/// `b` lies in the subtree rooted at `a` (`b == a` included).
pub open spec fn is_desc(a: int, b: int) -> bool
    decreases b,
{
    if a < 0 || b < a {
        false
    } else if b == a {
        true
    } else {
        is_desc(a, (b - 1) / 2)
    }
}

/// Sum of the leaf values in the subtree rooted at `i`.
pub open spec fn subtree_sum(v: Seq<nat>, i: int) -> nat
    decreases v.len() - i,
{
    if i < 0 || i >= v.len() {
        0
    } else if 2 * i + 1 >= v.len() {
        v[i]
    } else {
        subtree_sum(v, 2 * i + 1) + subtree_sum(v, 2 * i + 2)
    }
}

/// Sum of a sequence of naturals.
pub open spec fn seq_sum(s: Seq<nat>) -> nat
    decreases s.len(),
{
    if s.len() == 0 {
        0
    } else {
        seq_sum(s.drop_last()) + s.last()
    }
}

pub proof fn lemma_desc_parent(x: int)
    requires
        x > 0,
    ensures
        is_desc(parent(x), x),
{
    reveal_with_fuel(is_desc, 2);
}

pub proof fn lemma_desc_children(i: int)
    requires
        i >= 0,
    ensures
        is_desc(i, 2 * i + 1),
        is_desc(i, 2 * i + 2),
        parent(2 * i + 1) == i,
        parent(2 * i + 2) == i,
{
    reveal_with_fuel(is_desc, 2);
}

pub proof fn lemma_desc_trans(a: int, b: int, c: int)
    requires
        is_desc(a, b),
        is_desc(b, c),
    ensures
        is_desc(a, c),
    decreases c,
{
    if c != b {
        lemma_desc_trans(a, b, parent(c));
    }
}

pub proof fn lemma_desc_root(x: int)
    requires
        x >= 0,
    ensures
        is_desc(0, x),
    decreases x,
{
    if x > 0 {
        lemma_desc_root(parent(x));
    }
}

/// A proper descendant of `p` lies below exactly one of its two children.
pub proof fn lemma_desc_split(p: int, x: int)
    requires
        is_desc(p, x),
        x != p,
    ensures
        is_desc(2 * p + 1, x) || is_desc(2 * p + 2, x),
        !(is_desc(2 * p + 1, x) && is_desc(2 * p + 2, x)),
        x >= 2 * p + 1,
    decreases x,
{
    let q = parent(x);
    if q == p {
        lemma_desc_children(p);
        assert(x == 2 * p + 1 || x == 2 * p + 2);
    } else {
        lemma_desc_split(p, q);
        lemma_desc_parent(x);
        if is_desc(2 * p + 1, q) {
            lemma_desc_trans(2 * p + 1, q, x);
        } else {
            lemma_desc_trans(2 * p + 2, q, x);
        }
    }
    lemma_desc_not_both(p, x);
}

/// Two ancestors of a node are comparable.
pub proof fn lemma_desc_ordered(a: int, b: int, x: int)
    requires
        is_desc(a, x),
        is_desc(b, x),
    ensures
        is_desc(a, b) || is_desc(b, a),
    decreases x,
{
    if x != a && x != b {
        lemma_desc_ordered(a, b, parent(x));
    }
}

pub proof fn lemma_desc_not_both(p: int, x: int)
    requires
        p >= 0,
    ensures
        !(is_desc(2 * p + 1, x) && is_desc(2 * p + 2, x)),
{
    reveal_with_fuel(is_desc, 2);
    if is_desc(2 * p + 1, x) && is_desc(2 * p + 2, x) {
        lemma_desc_ordered(2 * p + 1, 2 * p + 2, x);
    }
}

/// A subtree holds at least what any of its subtrees holds.
pub proof fn lemma_subtree_ge(v: Seq<nat>, x: int, y: int)
    requires
        is_desc(x, y),
        y < v.len(),
    ensures
        subtree_sum(v, x) >= subtree_sum(v, y),
    decreases y - x,
{
    if x != y {
        lemma_desc_split(x, y);
        if is_desc(2 * x + 1, y) {
            lemma_subtree_ge(v, 2 * x + 1, y);
        } else {
            lemma_subtree_ge(v, 2 * x + 2, y);
        }
    }
}

/// Two disjoint subtrees below `p` hold together no more than `p`.
pub proof fn lemma_subtree_disjoint(v: Seq<nat>, p: int, d: int, y: int)
    requires
        is_desc(p, d),
        is_desc(p, y),
        !is_desc(d, y),
        !is_desc(y, d),
        d < v.len(),
        y < v.len(),
    ensures
        subtree_sum(v, p) >= subtree_sum(v, d) + subtree_sum(v, y),
    decreases d - p,
{
    lemma_desc_split(p, d);
    lemma_desc_split(p, y);
    let cd = if is_desc(2 * p + 1, d) { 2 * p + 1 } else { 2 * p + 2 };
    let cy = if is_desc(2 * p + 1, y) { 2 * p + 1 } else { 2 * p + 2 };
    if cd == cy {
        lemma_subtree_disjoint(v, cd, d, y);
    } else {
        lemma_subtree_ge(v, cd, d);
        lemma_subtree_ge(v, cy, y);
    }
}

/// Changing one leaf changes exactly the sums of its ancestors.
pub proof fn lemma_subtree_update_leaf(v: Seq<nat>, j: int, val: nat, x: int)
    requires
        is_leaf(v.len() as int, j),
        x >= 0,
    ensures
        subtree_sum(v.update(j, val), x) as int == if is_desc(x, j) {
            subtree_sum(v, x) - v[j] + val
        } else {
            subtree_sum(v, x) as int
        },
    decreases v.len() - x,
{
    let w = v.update(j, val);
    if x >= v.len() {
    } else if 2 * x + 1 >= v.len() {
        if x != j && is_desc(x, j) {
            lemma_desc_split(x, j);
        }
    } else {
        lemma_subtree_update_leaf(v, j, val, 2 * x + 1);
        lemma_subtree_update_leaf(v, j, val, 2 * x + 2);
        lemma_desc_children(x);
        if is_desc(x, j) {
            lemma_desc_split(x, j);
        } else {
            if is_desc(2 * x + 1, j) {
                lemma_desc_trans(x, 2 * x + 1, j);
            }
            if is_desc(2 * x + 2, j) {
                lemma_desc_trans(x, 2 * x + 2, j);
            }
        }
    }
}

/// When every leaf holds zero, every subtree does.
pub proof fn lemma_subtree_zero(v: Seq<nat>, x: int)
    requires
        forall|j: int| is_leaf(v.len() as int, j) ==> v[j] == 0,
    ensures
        subtree_sum(v, x) == 0,
    decreases v.len() - x,
{
    if 0 <= x < v.len() && 2 * x + 1 < v.len() {
        lemma_subtree_zero(v, 2 * x + 1);
        lemma_subtree_zero(v, 2 * x + 2);
    }
}

/// When every leaf holds something, every subtree does.
pub proof fn lemma_subtree_pos(v: Seq<nat>, x: int)
    requires
        forall|j: int| is_leaf(v.len() as int, j) ==> v[j] > 0,
        0 <= x < v.len(),
    ensures
        subtree_sum(v, x) > 0,
    decreases v.len() - x,
{
    if 2 * x + 1 < v.len() {
        lemma_subtree_pos(v, 2 * x + 1);
        assert(subtree_sum(v, x) == subtree_sum(v, 2 * x + 1) + subtree_sum(v, 2 * x + 2));
    } else {
        assert(is_leaf(v.len() as int, x));
        assert(subtree_sum(v, x) == v[x]);
    }
}

/// Replacing one element changes the sum by the difference.
pub proof fn lemma_seq_sum_update(s: Seq<nat>, i: int, x: nat)
    requires
        0 <= i < s.len(),
    ensures
        seq_sum(s.update(i, x)) == seq_sum(s) - s[i] + x,
    decreases s.len(),
{
    if i == s.len() - 1 {
        assert(s.update(i, x).drop_last() =~= s.drop_last());
    } else {
        lemma_seq_sum_update(s.drop_last(), i, x);
        assert(s.update(i, x).drop_last() =~= s.drop_last().update(i, x));
    }
}

/// A sum is zero exactly when every element is.
pub proof fn lemma_seq_sum_zero(s: Seq<nat>)
    ensures
        seq_sum(s) == 0 <==> forall|i: int| 0 <= i < s.len() ==> s[i] == 0,
    decreases s.len(),
{
    if s.len() > 0 {
        lemma_seq_sum_zero(s.drop_last());
        if seq_sum(s) == 0 {
            assert forall|i: int| 0 <= i < s.len() implies s[i] == 0 by {
                if i < s.len() - 1 {
                    assert(s.drop_last()[i] == s[i]);
                }
            }
        } else {
            if forall|i: int| 0 <= i < s.len() ==> s[i] == 0 {
                assert forall|i: int| 0 <= i < s.drop_last().len() implies s.drop_last()[i] == 0 by {
                    assert(s[i] == 0);
                }
            }
        }
    }
}

/// A prefix sums to at most the whole.
pub proof fn lemma_seq_sum_prefix(s: Seq<nat>, i: int)
    requires
        0 <= i <= s.len(),
    ensures
        seq_sum(s.take(i)) <= seq_sum(s),
    decreases s.len() - i,
{
    if i < s.len() {
        lemma_seq_sum_prefix(s, i + 1);
        assert(s.take(i + 1).drop_last() =~= s.take(i));
    } else {
        assert(s.take(i) =~= s);
    }
}

proof fn lemma_seq_sum_prepend(a: nat, s: Seq<nat>)
    ensures
        seq_sum(seq![a] + s) == a + seq_sum(s),
    decreases s.len(),
{
    if s.len() > 0 {
        lemma_seq_sum_prepend(a, s.drop_last());
        assert((seq![a] + s).drop_last() =~= seq![a] + s.drop_last());
    } else {
        assert((seq![a] + s).drop_last() =~= s);
    }
}

/// Merging the last two leaves into their parent keeps every subtree sum.
proof fn lemma_peel(v: Seq<nat>, x: int)
    requires
        v.len() >= 3,
        v.len() % 2 == 1,
        0 <= x < v.len() - 2,
    ensures
        ({
            let n = v.len() as int;
            let p = (n - 3) / 2;
            let w = v.take(n - 2).update(p, v[n - 2] + v[n - 1]);
            subtree_sum(w, x) == subtree_sum(v, x)
        }),
    decreases v.len() - x,
{
    let n = v.len() as int;
    let p = (n - 3) / 2;
    let w = v.take(n - 2).update(p, v[n - 2] + v[n - 1]);
    if 2 * x + 1 < n - 2 {
        lemma_peel(v, 2 * x + 1);
        lemma_peel(v, 2 * x + 2);
    } else if x == p {
        assert(subtree_sum(v, n - 2) == v[n - 2]);
        assert(subtree_sum(v, n - 1) == v[n - 1]);
    } else {
    }
}

/// The root of a tree of odd size holds the sum of all leaves, which are
/// the nodes from `(n - 1) / 2` on.
pub proof fn lemma_subtree_root_sum(v: Seq<nat>)
    requires
        v.len() % 2 == 1,
    ensures
        subtree_sum(v, 0) == seq_sum(v.subrange((v.len() - 1) / 2, v.len() as int)),
    decreases v.len(),
{
    let n = v.len() as int;
    if n == 1 {
        let s = v.subrange(0, 1);
        assert(s.drop_last() =~= Seq::<nat>::empty());
        assert(seq_sum(s) == seq_sum(s.drop_last()) + s.last());
        assert(s.last() == v[0]);
    } else {
        let p = (n - 3) / 2;
        let w = v.take(n - 2).update(p, v[n - 2] + v[n - 1]);
        lemma_peel(v, 0);
        lemma_subtree_root_sum(w);
        let rest = v.subrange(p + 1, n - 2);
        assert(w.subrange(p, n - 2) =~= seq![v[n - 2] + v[n - 1]] + rest);
        lemma_seq_sum_prepend(v[n - 2] + v[n - 1], rest);
        let full = v.subrange(p + 1, n);
        assert(full.drop_last() =~= v.subrange(p + 1, n - 1));
        assert(full.drop_last().drop_last() =~= rest);
        assert(seq_sum(full) == seq_sum(full.drop_last()) + v[n - 1]);
        assert(seq_sum(full.drop_last()) == seq_sum(rest) + v[n - 2]);
        assert((n - 1) / 2 == p + 1);
        assert(subtree_sum(v, 0) == subtree_sum(w, 0));
    }
}

/// The integer part of the base-2 logarithm: the depth of the last of `n`
/// nodes of a complete binary tree.
pub open spec fn floor_log2(n: nat) -> nat
    decreases n,
{
    if n < 2 {
        0
    } else {
        floor_log2(n / 2) + 1
    }
}

/// The integer part of the base-2 logarithm of a positive number.
pub fn floor_log2_of(n: usize) -> (r: usize)
    requires
        n > 0,
    ensures
        r == floor_log2(n as nat),
{
    let mut m: usize = n;
    let mut r: usize = 0;
    while m > 1
        invariant
            m > 0,
            r + floor_log2(m as nat) == floor_log2(n as nat),
            r + m <= n,
        decreases m,
    {
        m = m / 2;
        r = r + 1;
    }
    r
}

/// A sum grows with its elements.
pub proof fn lemma_seq_sum_le(a: Seq<nat>, b: Seq<nat>)
    requires
        a.len() == b.len(),
        forall|i: int| 0 <= i < a.len() ==> #[trigger] a[i] <= b[i],
    ensures
        seq_sum(a) <= seq_sum(b),
    decreases a.len(),
{
    if a.len() > 0 {
        lemma_seq_sum_le(a.drop_last(), b.drop_last());
    }
}

/// Taking one element out of a sum leaves the rest.
pub proof fn lemma_seq_sum_remove(s: Seq<nat>, i: int)
    requires
        0 <= i < s.len(),
    ensures
        seq_sum(s) == seq_sum(s.remove(i)) + s[i],
    decreases s.len(),
{
    if i == s.len() - 1 {
        assert(s.remove(i) =~= s.drop_last());
    } else {
        lemma_seq_sum_remove(s.drop_last(), i);
        assert(s.remove(i).drop_last() =~= s.drop_last().remove(i));
        assert(s.remove(i).last() == s.last());
    }
}

} // verus!
