use crate::heap_tree::{
    is_desc, is_internal, is_leaf, lemma_desc_children, lemma_desc_not_both, lemma_desc_ordered, lemma_desc_parent,
    lemma_desc_root, lemma_desc_split, lemma_desc_trans, lemma_seq_sum_prefix, lemma_subtree_disjoint,
    lemma_subtree_update_leaf, lemma_seq_sum_update, lemma_seq_sum_zero, lemma_subtree_ge,
    lemma_subtree_pos, lemma_subtree_root_sum, seq_sum, subtree_sum,
};
use crate::entrant::{reported_tickets, ticket_counts, Entrant};
use crate::user::{reported_user_tickets, user_ticket_counts, User};
use crate::prize::Prize;
use crate::prize_queue::PrizeQueue;
use crate::random::{random_below, Draw};
use crate::tally::{lemma_occurrences_push, occurrences};
use rand::Rng;
use vstd::prelude::*;
use vstd::set_lib::{lemma_int_range, set_int_range};

verus! {

/// A node of the tree kept by [`SpaceEfficientShuffler`].
enum BinaryTreeNode {
    /// Either initialization stub, or `Leaf` just got purged after `SpaceEfficientShuffler::try_draw_one`.
    /// See also `SpaceEfficientShuffler::trim`.
    /// A transient state: no valid node would be such that both its children are `None`.
    Vacant,
    /// Artifact of both `SpaceEfficientShuffler::try_draw_one` and `SpaceEfficientShuffler::trim`:
    /// exactly one of its children is `None`,
    /// and `descendant_idx` points us towards the next interesting descendant,
    /// which holds all the tickets of this node.
    One { descendant_idx: usize },
    /// This node has two children, both holding tickets.
    Two { total_tickets_of_subtree: usize },
    /// We store only those entrants who have tickets; `entrant` is the
    /// entrant's position in the list the shuffler was built from.
    Leaf { entrant: usize, ticket_count: usize },
}

/// The tickets that a node holds by itself (only leaves hold any).
spec fn leaf_value(t: Seq<BinaryTreeNode>, i: int) -> nat {
    match t[i] {
        BinaryTreeNode::Leaf { ticket_count, .. } => ticket_count as nat,
        _ => 0,
    }
}

spec fn leaf_values(t: Seq<BinaryTreeNode>) -> Seq<nat> {
    Seq::new(t.len(), |i: int| leaf_value(t, i))
}

/// The tickets held in the subtree rooted at `i`.
spec fn tickets(t: Seq<BinaryTreeNode>, i: int) -> nat {
    subtree_sum(leaf_values(t), i)
}

/// What each kind of node promises about the tickets below it.
spec fn node_ok(t: Seq<BinaryTreeNode>, i: int) -> bool {
    let n = t.len() as int;
    if is_internal(n, i) {
        match t[i] {
            BinaryTreeNode::Two { total_tickets_of_subtree } => {
                &&& total_tickets_of_subtree == tickets(t, i)
                &&& tickets(t, 2 * i + 1) > 0
                &&& tickets(t, 2 * i + 2) > 0
            },
            BinaryTreeNode::One { descendant_idx } => {
                &&& i < descendant_idx < n
                &&& is_desc(i, descendant_idx as int)
                &&& tickets(t, descendant_idx as int) == tickets(t, i)
                &&& tickets(t, i) > 0
                &&& (tickets(t, 2 * i + 1) == 0 || tickets(t, 2 * i + 2) == 0)
            },
            BinaryTreeNode::Vacant => tickets(t, i) == 0,
            BinaryTreeNode::Leaf { .. } => false,
        }
    } else {
        match t[i] {
            BinaryTreeNode::Leaf { ticket_count, .. } => ticket_count > 0,
            BinaryTreeNode::Vacant => true,
            _ => false,
        }
    }
}

spec fn tree_ok(t: Seq<BinaryTreeNode>) -> bool {
    &&& (t.len() == 0 || t.len() % 2 == 1)
    &&& forall|i: int| 0 <= i < t.len() ==> #[trigger] node_ok(t, i)
}

/// `s[e]` is the leaf of entrant `e`, or -1 when it has none.
spec fn slots_ok(t: Seq<BinaryTreeNode>, s: Seq<int>) -> bool {
    let n = t.len() as int;
    &&& forall|e: int|
        0 <= e < s.len() && #[trigger] s[e] >= 0 ==> {
            &&& is_leaf(n, s[e])
            &&& (t[s[e]] is Vacant || (t[s[e]] is Leaf && t[s[e]]->entrant == e))
        }
    &&& forall|j: int|
        is_leaf(n, j) && #[trigger] t[j] is Leaf ==> {
            &&& t[j]->entrant < s.len()
            &&& s[t[j]->entrant as int] == j
        }
    &&& forall|e1: int, e2: int|
        0 <= e1 < s.len() && 0 <= e2 < s.len() && #[trigger] s[e1] >= 0 && s[e1]
            == #[trigger] s[e2] ==> e1 == e2
}

spec fn remaining_of(t: Seq<BinaryTreeNode>, s: Seq<int>) -> Seq<nat> {
    Seq::new(s.len(), |e: int| if s[e] >= 0 { leaf_value(t, s[e]) } else { 0 })
}

/// The state between lowering a leaf's tickets and tidying the path above
/// it: a `Two` may have an empty child on the path to `leaf`, and a `One`
/// above `leaf` may have run out of tickets.
spec fn node_relaxed(t: Seq<BinaryTreeNode>, i: int, leaf: int) -> bool {
    let n = t.len() as int;
    if is_internal(n, i) {
        match t[i] {
            BinaryTreeNode::Two { total_tickets_of_subtree } => {
                &&& total_tickets_of_subtree == tickets(t, i)
                &&& tickets(t, i) > 0
                &&& (tickets(t, 2 * i + 1) > 0 || is_desc(2 * i + 1, leaf))
                &&& (tickets(t, 2 * i + 2) > 0 || is_desc(2 * i + 2, leaf))
            },
            BinaryTreeNode::One { descendant_idx } => {
                &&& i < descendant_idx < n
                &&& is_desc(i, descendant_idx as int)
                &&& tickets(t, descendant_idx as int) == tickets(t, i)
                &&& (tickets(t, 2 * i + 1) == 0 || tickets(t, 2 * i + 2) == 0)
                &&& (tickets(t, i) > 0 || is_desc(descendant_idx as int, leaf))
            },
            BinaryTreeNode::Vacant => tickets(t, i) == 0,
            BinaryTreeNode::Leaf { .. } => false,
        }
    } else {
        node_ok(t, i)
    }
}

/// Trees with the same leaves hold the same tickets everywhere.
proof fn lemma_same_leaves(t1: Seq<BinaryTreeNode>, t2: Seq<BinaryTreeNode>)
    requires
        leaf_values(t1) == leaf_values(t2),
    ensures
        forall|y: int| #[trigger] tickets(t1, y) == tickets(t2, y),
{
}

/// A node off the path to `leaf` that is relaxed is in order.
proof fn lemma_relaxed_off_path(t: Seq<BinaryTreeNode>, x: int, leaf: int)
    requires
        0 <= x < t.len(),
        node_relaxed(t, x, leaf),
        !is_desc(x, leaf),
    ensures
        node_ok(t, x),
{
    if is_internal(t.len() as int, x) {
        lemma_desc_children(x);
        if is_desc(2 * x + 1, leaf) {
            lemma_desc_trans(x, 2 * x + 1, leaf);
        }
        if is_desc(2 * x + 2, leaf) {
            lemma_desc_trans(x, 2 * x + 2, leaf);
        }
        match t[x] {
            BinaryTreeNode::One { descendant_idx } => {
                if is_desc(descendant_idx as int, leaf) {
                    lemma_desc_trans(x, descendant_idx as int, leaf);
                }
            },
            _ => {},
        }
    }
}

/// A relaxed node strictly above a node `q` that holds tickets, with `q`
/// above `leaf`, is in order.
proof fn lemma_relaxed_above(t: Seq<BinaryTreeNode>, x: int, leaf: int, q: int)
    requires
        0 <= x < t.len(),
        node_relaxed(t, x, leaf),
        is_desc(x, q),
        x != q,
        is_desc(q, leaf),
        leaf < t.len(),
        tickets(t, q) > 0,
    ensures
        node_ok(t, x),
{
    let v = leaf_values(t);
    lemma_desc_split(x, q);
    lemma_subtree_ge(v, x, q);
    let c = if is_desc(2 * x + 1, q) { 2 * x + 1 } else { 2 * x + 2 };
    let c2 = if c == 2 * x + 1 { 2 * x + 2 } else { 2 * x + 1 };
    lemma_subtree_ge(v, c, q);
    lemma_desc_trans(c, q, leaf);
    lemma_desc_not_both(x, leaf);
}

/// Pointing an internal `One` node further down, to a node holding all its
/// tickets, keeps the tree in order and changes no leaf.
proof fn lemma_retarget(t: Seq<BinaryTreeNode>, s: Seq<int>, i: int, d: usize)
    requires
        tree_ok(t),
        slots_ok(t, s),
        is_internal(t.len() as int, i),
        t[i] is One,
        i < d < t.len(),
        is_desc(i, d as int),
        tickets(t, d as int) == tickets(t, i),
    ensures
        ({
            let t2 = t.update(i, BinaryTreeNode::One { descendant_idx: d });
            &&& tree_ok(t2)
            &&& slots_ok(t2, s)
            &&& leaf_values(t2) == leaf_values(t)
            &&& remaining_of(t2, s) == remaining_of(t, s)
        }),
{
    let t2 = t.update(i, BinaryTreeNode::One { descendant_idx: d });
    assert(leaf_values(t2) =~= leaf_values(t));
    lemma_same_leaves(t, t2);
    assert(node_ok(t, i));
    assert forall|x: int| 0 <= x < t2.len() implies #[trigger] node_ok(t2, x) by {
        assert(node_ok(t, x));
        if x != i {
            assert(t2[x] == t[x]);
        }
    }
    assert(remaining_of(t2, s) =~= remaining_of(t, s));
}

/// Entrant `e` kept its tickets, or lost all of them.
pub open spec fn kept_or_dropped(before: Seq<nat>, after: Seq<nat>, e: int) -> bool {
    after[e] == before[e] || after[e] == 0
}

/// Entrant `w` won: it held tickets and has one fewer; every other entrant
/// kept its tickets or lost all of them.
pub open spec fn one_drawn(before: Seq<nat>, after: Seq<nat>, w: int) -> bool {
    &&& 0 <= w < before.len()
    &&& before[w] > 0
    &&& after[w] == before[w] - 1
    &&& forall|e: int| 0 <= e < before.len() && e != w ==> kept_or_dropped(before, after, e)
}

/// Every entrant has won, among `wins`, at most the tickets it started with
/// less the tickets it has left.
pub open spec fn wins_within(start: Seq<nat>, left: Seq<nat>, wins: Seq<int>) -> bool {
    &&& left.len() == start.len()
    &&& forall|e: int| 0 <= e < start.len() ==> #[trigger] occurrences(wins, e) + left[e] <= start[e]
}

/// A successful draw takes one ticket from its winner, and a draw takes no
/// ticket it does not drop: over a run of draws, what each entrant has won
/// plus what it has left never exceeds the tickets it started with.
pub proof fn lemma_wins_within_step(
    start: Seq<nat>,
    before: Seq<nat>,
    after: Seq<nat>,
    wins: Seq<int>,
    drawn: bool,
    w: int,
)
    requires
        wins_within(start, before, wins),
        after.len() == before.len(),
        drawn ==> one_drawn(before, after, w),
        !drawn ==> forall|e: int| 0 <= e < before.len() ==> kept_or_dropped(before, after, e),
    ensures
        drawn ==> wins_within(start, after, wins.push(w)),
        !drawn ==> wins_within(start, after, wins),
{
    assert forall|e: int| 0 <= e < start.len() implies occurrences(
        if drawn { wins.push(w) } else { wins },
        e,
    ) + after[e] <= start[e] by {
        lemma_occurrences_push(wins, w, e);
        assert(occurrences(wins, e) + before[e] <= start[e]);
        if !drawn || e != w {
            assert(kept_or_dropped(before, after, e));
        }
    }
}

/// The entrant takes no prize at all.
pub open spec fn refuses_all<'a, E: Entrant<'a>>(x: E) -> bool {
    forall|q: &'a Prize| !#[trigger] x.accepts_spec(q)
}

/// Entrant `w` took `unit`, becoming `ents1[w]`, and gave up one ticket for it;
/// every other entrant stayed as it was, and those that lost tickets take no
/// prize at all.
pub open spec fn won_by<'a, E: Entrant<'a>>(
    w: int,
    before: Seq<nat>,
    after: Seq<nat>,
    ents0: Seq<E>,
    ents1: Seq<E>,
    unit: &'a Prize,
) -> bool {
    &&& one_drawn(before, after, w)
    &&& ents0[w].accepts_spec(unit)
    &&& ents0[w].takes_to(unit, ents1[w])
    &&& ents1.len() == ents0.len()
    &&& forall|e: int| 0 <= e < ents0.len() && e != w ==> #[trigger] ents1[e] == ents0[e]
    &&& forall|e: int|
        0 <= e < before.len() && e != w && after[e] != before[e] ==> refuses_all(ents0[e])
}

/// How the entrants `ents0` (after the call `ents1`) answered the offers of
/// `unit` in one draw: on success one winner took it; else none did and all
/// stayed as they were. Every other entrant that lost tickets takes no prize
/// at all.
pub open spec fn answered<'a, E: Entrant<'a>>(
    drawn: bool,
    before: Seq<nat>,
    after: Seq<nat>,
    ents0: Seq<E>,
    ents1: Seq<E>,
    unit: &'a Prize,
) -> bool {
    &&& drawn ==> exists|w: int| #[trigger] won_by(w, before, after, ents0, ents1, unit)
    &&& !drawn ==> ents1 == ents0
    &&& !drawn ==> forall|e: int|
        0 <= e < before.len() && after[e] != before[e] ==> refuses_all(ents0[e])
}

/// The user takes no prize at all.
pub open spec fn user_refuses_all<'a, U: User<'a>>(x: U) -> bool {
    forall|q: &'a Prize| !#[trigger] x.accepts_spec(q)
}

/// User `w` took `unit`, becoming `ents1[w]`, and gave up one ticket for it;
/// every other user stayed as it was, and those that lost tickets take no
/// prize at all.
pub open spec fn user_won_by<'a, U: User<'a>>(
    w: int,
    before: Seq<nat>,
    after: Seq<nat>,
    ents0: Seq<U>,
    ents1: Seq<U>,
    unit: &'a Prize,
) -> bool {
    &&& one_drawn(before, after, w)
    &&& ents0[w].accepts_spec(unit)
    &&& ents0[w].takes_to(unit, ents1[w])
    &&& ents1.len() == ents0.len()
    &&& forall|e: int| 0 <= e < ents0.len() && e != w ==> #[trigger] ents1[e] == ents0[e]
    &&& forall|e: int|
        0 <= e < before.len() && e != w && after[e] != before[e] ==> user_refuses_all(ents0[e])
}

/// How the users `ents0` (after the call `ents1`) answered the offers of
/// `unit` in one draw: on success one winner took it; else none did and all
/// stayed as they were. Every other user that lost tickets takes no prize
/// at all.
pub open spec fn user_answered<'a, U: User<'a>>(
    drawn: bool,
    before: Seq<nat>,
    after: Seq<nat>,
    ents0: Seq<U>,
    ents1: Seq<U>,
    unit: &'a Prize,
) -> bool {
    &&& drawn ==> exists|w: int| #[trigger] user_won_by(w, before, after, ents0, ents1, unit)
    &&& !drawn ==> ents1 == ents0
    &&& !drawn ==> forall|e: int|
        0 <= e < before.len() && after[e] != before[e] ==> user_refuses_all(ents0[e])
}

/// How many of the counts are positive.
pub open spec fn positive_count(s: Seq<nat>) -> nat
    decreases s.len(),
{
    if s.len() == 0 {
        0
    } else {
        positive_count(s.drop_last()) + if s.last() > 0 {
            1nat
        } else {
            0nat
        }
    }
}

/// The size of a complete binary tree with one leaf per positive count.
pub open spec fn tree_size(counts: Seq<nat>) -> nat {
    if positive_count(counts) == 0 {
        0
    } else {
        (2 * positive_count(counts) - 1) as nat
    }
}

/// What one call of `try_draw_one` does, given the tickets each entrant has
/// left before and after it, the totals, and the prize queue's position
/// before and after among `units` items: either one entrant won the next
/// item, or nothing was handed out because no item or no ticket was left.
pub open spec fn draw_outcome(
    drawn: bool,
    before: Seq<nat>,
    after: Seq<nat>,
    total_before: nat,
    total_after: nat,
    pos_before: int,
    pos_after: int,
    units: nat,
) -> bool {
    &&& after.len() == before.len()
    &&& drawn ==> {
        &&& pos_after == pos_before + 1
        &&& exists|w: int| one_drawn(before, after, w)
        &&& total_after < total_before
    }
    &&& !drawn ==> {
        &&& pos_after == pos_before
        &&& forall|e: int| 0 <= e < before.len() ==> kept_or_dropped(before, after, e)
        &&& pos_before < units ==> total_after == 0
        &&& pos_before >= units ==> after == before
    }
}

/// A draw that ended with nothing handed out is followed only by such
/// draws: once no item or no ticket is left, none comes back.
pub proof fn lemma_failure_persists(
    before1: Seq<nat>,
    after1: Seq<nat>,
    total_before1: nat,
    total_after1: nat,
    pos_before1: int,
    pos_after1: int,
    drawn2: bool,
    after2: Seq<nat>,
    total_after2: nat,
    pos_after2: int,
    units: nat,
)
    requires
        draw_outcome(false, before1, after1, total_before1, total_after1, pos_before1, pos_after1, units),
        draw_outcome(drawn2, after1, after2, total_after1, total_after2, pos_after1, pos_after2, units),
        pos_after2 <= units,
    ensures
        !drawn2,
        pos_after2 == pos_after1,
{
}

/// The node of the leaf of entrant `e` in a tree laid out over `counts`:
/// after the forks, the entrants with tickets in their order.
pub open spec fn tree_leaf(counts: Seq<nat>, e: int) -> int {
    positive_count(counts) - 1 + positive_count(counts.take(e))
}

/// Among the counts, those before `i` and `i` itself are no more than all.
proof fn lemma_positive_count_take(s: Seq<nat>, i: int)
    requires
        0 <= i < s.len(),
    ensures
        positive_count(s) >= positive_count(s.take(i)) + if s[i] > 0 {
            1int
        } else {
            0int
        },
    decreases s.len(),
{
    if i == s.len() - 1 {
        assert(s.take(i) =~= s.drop_last());
    } else {
        lemma_positive_count_take(s.drop_last(), i);
        assert(s.drop_last().take(i) =~= s.take(i));
    }
}

/// The tickets each node holds by itself in a tree laid out over `counts`
/// when each entrant `e` has `rem[e]` tickets left: a leaf those of its
/// entrant, any other node none.
pub open spec fn laid_out_tickets(counts: Seq<nat>, rem: Seq<nat>) -> Seq<nat> {
    Seq::new(
        tree_size(counts),
        |j: int|
            if exists|e: int| 0 <= e < counts.len() && counts[e] > 0 && tree_leaf(counts, e) == j {
                rem[choose|e: int| 0 <= e < counts.len() && counts[e] > 0 && tree_leaf(counts, e) == j]
            } else {
                0
            },
    )
}

/// The tree of `s` lays the counts out as a complete binary tree: after the
/// forks, one leaf per entrant with tickets, in the order of the entrants,
/// holding its count; each fork records the tickets below it.
pub open spec fn laid_out(s: SpaceEfficientShuffler, counts: Seq<nat>) -> bool {
    &&& forall|e: int|
        0 <= e < counts.len() && #[trigger] counts[e] > 0 ==> s.is_leaf_of(
            positive_count(counts) - 1 + positive_count(counts.take(e)),
            e,
            counts[e],
        )
    &&& forall|i: int| 0 <= i < positive_count(counts) - 1 ==> #[trigger] s.is_fork(i)
}

/// Ticket counts as naturals.
/// The child of the fork `x` that a number `g` drawn below its tickets
/// selects: the left one when `g` is below the left subtree's tickets,
/// else the right one.
pub open spec fn selected(lv: Seq<nat>, x: int, g: nat) -> int {
    if g < subtree_sum(lv, 2 * x + 1) {
        2 * x + 1
    } else {
        2 * x + 2
    }
}

/// Node `x` has tickets on both sides, so a walk through it has a choice.
pub open spec fn splits(lv: Seq<nat>, x: int) -> bool {
    &&& subtree_sum(lv, 2 * x + 1) > 0
    &&& subtree_sum(lv, 2 * x + 2) > 0
}

/// Over a tree whose leaves hold the tickets `lv`, the walk `steps` led to
/// `leaf`: each step is a node above `leaf` with a number the generator
/// drew below that node's tickets, and `leaf` lies under the child that
/// number selects; and the walk took a step at every node above `leaf`
/// where it had a choice.
pub open spec fn walk_to(lv: Seq<nat>, steps: Seq<(int, Draw)>, leaf: int) -> bool {
    &&& forall|k: int|
        #![trigger steps[k]]
        0 <= k < steps.len() ==> {
            &&& is_desc(steps[k].0, leaf)
            &&& steps[k].0 != leaf
            &&& steps[k].1.below() == subtree_sum(lv, steps[k].0)
            &&& is_desc(selected(lv, steps[k].0, steps[k].1.drawn()), leaf)
        }
    &&& forall|x: int|
        is_desc(x, leaf) && x != leaf && #[trigger] splits(lv, x) ==> exists|k: int|
            0 <= k < steps.len() && #[trigger] steps[k].0 == x
}

/// The last walk of `s` led to the leaf of entrant `w`, over the tickets
/// the leaves held before `w` gave up one of its tickets for the prize.
pub open spec fn walked_to_winner(s: SpaceEfficientShuffler, w: int) -> bool {
    walk_to(
        s.leaf_tickets().update(s.leaf_of(w), s.leaf_tickets()[s.leaf_of(w)] + 1),
        s.last_walk(),
        s.leaf_of(w),
    )
}

/// At a fork, the walk goes into each child for as many of the numbers
/// below the fork's tickets as that child holds tickets: a number drawn
/// uniformly below the fork's tickets leads into a child with a chance
/// proportional to its tickets.
pub proof fn lemma_selected_share(lv: Seq<nat>, x: int, y: int)
    requires
        0 <= x,
        2 * x + 1 < lv.len(),
        y == 2 * x + 1 || y == 2 * x + 2,
    ensures
        Set::new(|g: int| 0 <= g < subtree_sum(lv, x) && selected(lv, x, g as nat) == y).finite(),
        Set::new(|g: int| 0 <= g < subtree_sum(lv, x) && selected(lv, x, g as nat) == y).len()
            == subtree_sum(lv, y),
{
    let l = subtree_sum(lv, 2 * x + 1) as int;
    let r = subtree_sum(lv, 2 * x + 2) as int;
    assert(subtree_sum(lv, x) == l + r);
    let chosen = Set::new(|g: int| 0 <= g < subtree_sum(lv, x) && selected(lv, x, g as nat) == y);
    if y == 2 * x + 1 {
        assert(chosen =~= set_int_range(0, l));
        lemma_int_range(0, l);
    } else {
        assert(chosen =~= set_int_range(l, l + r));
        lemma_int_range(l, l + r);
    }
}

/// The draws of a walk decide where it ends: two leaves with tickets that
/// the same walk led to over the same tickets are the same leaf.
pub proof fn lemma_walk_decides(lv: Seq<nat>, steps: Seq<(int, Draw)>, l1: int, l2: int)
    requires
        walk_to(lv, steps, l1),
        walk_to(lv, steps, l2),
        is_leaf(lv.len() as int, l1),
        is_leaf(lv.len() as int, l2),
        lv[l1] > 0,
        lv[l2] > 0,
    ensures
        l1 == l2,
{
    lemma_desc_root(l1);
    lemma_desc_root(l2);
    lemma_walk_decides_from(lv, steps, l1, l2, 0);
}

proof fn lemma_walk_decides_from(lv: Seq<nat>, steps: Seq<(int, Draw)>, l1: int, l2: int, x: int)
    requires
        walk_to(lv, steps, l1),
        walk_to(lv, steps, l2),
        is_leaf(lv.len() as int, l1),
        is_leaf(lv.len() as int, l2),
        lv[l1] > 0,
        lv[l2] > 0,
        is_desc(x, l1),
        is_desc(x, l2),
    ensures
        l1 == l2,
    decreases lv.len() - x,
{
    if l1 != l2 {
        if x == l1 {
            lemma_desc_split(x, l2);
        } else if x == l2 {
            lemma_desc_split(x, l1);
        } else {
            lemma_desc_split(x, l1);
            lemma_desc_split(x, l2);
            let c1 = if is_desc(2 * x + 1, l1) { 2 * x + 1 } else { 2 * x + 2 };
            let c2 = if is_desc(2 * x + 1, l2) { 2 * x + 1 } else { 2 * x + 2 };
            if c1 == c2 {
                lemma_walk_decides_from(lv, steps, l1, l2, c1);
            } else {
                lemma_subtree_ge(lv, c1, l1);
                lemma_subtree_ge(lv, c2, l2);
                assert(splits(lv, x));
                let k = choose|k: int| 0 <= k < steps.len() && #[trigger] steps[k].0 == x;
                let sel = selected(lv, x, steps[k].1.drawn());
                assert(is_desc(sel, l1) && is_desc(sel, l2));
                lemma_desc_not_both(x, l1);
                lemma_desc_not_both(x, l2);
            }
        }
    }
}

/// Two nodes along a chain of `One` nodes hold the same tickets, so no
/// node between them has tickets on both sides.
proof fn lemma_chain_no_split(lv: Seq<nat>, i: int, d: int, x: int)
    requires
        is_desc(i, x),
        is_desc(x, d),
        x != d,
        d < lv.len(),
        subtree_sum(lv, d) == subtree_sum(lv, i),
    ensures
        !splits(lv, x),
{
    lemma_subtree_ge(lv, i, x);
    lemma_subtree_ge(lv, x, d);
    lemma_desc_split(x, d);
    if is_desc(2 * x + 1, d) {
        lemma_subtree_ge(lv, 2 * x + 1, d);
    } else {
        lemma_subtree_ge(lv, 2 * x + 2, d);
    }
}

pub open spec fn as_nats(s: Seq<usize>) -> Seq<nat> {
    s.map_values(|c: usize| c as nat)
}

/// The counts of at most one entrant always fit in a `usize`.
proof fn lemma_short_sum_fits(counts: Seq<usize>)
    requires
        counts.len() <= 1,
    ensures
        seq_sum(as_nats(counts)) <= usize::MAX,
{
    let c = as_nats(counts);
    if c.len() == 1 {
        assert(c.drop_last() =~= Seq::<nat>::empty());
        assert(seq_sum(c) == seq_sum(c.drop_last()) + c.last());
    }
}

/// The sum of the counts, or `None` when it exceeds `usize::MAX`.
pub fn checked_total(counts: &Vec<usize>) -> (r: Option<usize>)
    ensures
        r is Some <==> seq_sum(as_nats(counts@)) <= usize::MAX,
        r matches Some(t) ==> t == seq_sum(as_nats(counts@)),
{
    let mut sum: usize = 0;
    let mut i: usize = 0;
    while i < counts.len()
        invariant
            i <= counts.len(),
            sum == seq_sum(as_nats(counts@.take(i as int))),
        decreases counts.len() - i,
    {
        proof {
            assert(as_nats(counts@.take(i + 1)).drop_last() =~= as_nats(counts@.take(i as int)));
        }
        match sum.checked_add(counts[i]) {
            Some(s2) => {
                sum = s2;
            },
            None => {
                proof {
                    lemma_seq_sum_prefix(as_nats(counts@), i + 1);
                    assert(as_nats(counts@).take(i + 1) =~= as_nats(counts@.take(i + 1)));
                }
                return None;
            },
        }
        i = i + 1;
    }
    proof {
        assert(counts@.take(counts.len() as int) =~= counts@);
    }
    Some(sum)
}

/// Draws entrants at random, each with a chance proportional to the tickets
/// it has left, by walking down a binary tree of ticket counts.
pub struct SpaceEfficientShuffler {
    /// A tree where being leaf iff `BinaryTreeNode::Leaf`, i.e. concrete entrant.
    ///
    /// All nodes are tokens for some subset of entrants.
    /// Children of a node are partitions of that node:
    /// they are disjoint subsets of the node and union of children is the node itself.
    binary_tree: Vec<BinaryTreeNode>,
    /// The leaf of each entrant of the list the shuffler was built from.
    slot_of: Ghost<Seq<int>>,
    /// The last walk down the tree: each fork where the walk had a choice,
    /// with the number the generator drew there.
    last_walk: Ghost<Seq<(int, Draw)>>,
}

impl SpaceEfficientShuffler {
    /// The number of entrants of the list the shuffler was built from.
    pub closed spec fn num_entrants(&self) -> nat {
        self.slot_of@.len()
    }

    /// The tickets each entrant has left in the draw.
    pub closed spec fn remaining(&self) -> Seq<nat> {
        remaining_of(self.binary_tree@, self.slot_of@)
    }

    /// The number of nodes of the tree.
    pub closed spec fn node_count(&self) -> nat {
        self.binary_tree@.len()
    }

    /// All the tickets left in the draw.
    pub closed spec fn total(&self) -> nat {
        tickets(self.binary_tree@, 0)
    }

    pub closed spec fn wf(&self) -> bool {
        &&& tree_ok(self.binary_tree@)
        &&& slots_ok(self.binary_tree@, self.slot_of@)
        &&& self.total() == seq_sum(self.remaining())
    }

    /// The tickets left in the draw are the sum of what each entrant has left,
    /// and none are left exactly when no entrant has any.
    pub proof fn lemma_total(&self)
        requires
            self.wf(),
        ensures
            self.total() == seq_sum(self.remaining()),
            self.remaining().len() == self.num_entrants(),
            self.total() == 0 <==> forall|e: int|
                0 <= e < self.num_entrants() ==> #[trigger] self.remaining()[e] == 0,
    {
        lemma_seq_sum_zero(self.remaining());
    }

    /// Use with caution: do not call on leaves!
    fn left(u: usize) -> (r: usize)
        requires
            2 * u + 1 <= usize::MAX,
        ensures
            r == 2 * u + 1,
    {
        u * 2 + 1
    }

    /// Use with caution: do not call on leaves!
    fn right(u: usize) -> (r: usize)
        requires
            2 * u + 2 <= usize::MAX,
        ensures
            r == 2 * u + 2,
    {
        u * 2 + 2
    }

    /// Return `None` if already root i.e. input `0`.
    fn parent(u: usize) -> (r: Option<usize>)
        ensures
            u == 0 ==> r is None,
            u > 0 ==> r == Some(((u - 1) / 2) as usize),
    {
        match u.checked_sub(1) {
            Some(i) => Some(i / 2),
            None => None,
        }
    }

    /// Use with caution: is the sibling actually valid?
    fn sibling(u: usize) -> (r: usize)
        requires
            0 < u < usize::MAX,
        ensures
            r == if u % 2 == 1 { u + 1 } else { u - 1 },
    {
        u - 1 + (u % 2) * 2
    }

    /// Builds the tree over the entrants' ticket counts, asking each entrant
    /// once; `None` when the tickets add up to more than `usize::MAX`, which
    /// the tickets of at most one entrant never do.
    /// What each entrant has then left in the draw is the count it reported.
    ///
    /// Make `SpaceEfficientShuffler::binary_tree` a _complete binary tree_,
    /// in which all internal nodes are `BinaryTreeNode::Two`,
    /// and all leaf nodes are `BinaryTreeNode::Leaf`
    pub fn new<'p, E: Entrant<'p>>(entrants: &Vec<E>) -> (r: Option<Self>)
        ensures
            entrants.len() <= 1 ==> r is Some,
            r is Some <==> seq_sum(reported_tickets(entrants@)) <= usize::MAX,
            r matches Some(s) ==> {
                &&& s.wf()
                &&& s.num_entrants() == entrants.len()
                &&& s.remaining() == reported_tickets(entrants@)
                &&& s.node_count() == tree_size(s.remaining())
                &&& laid_out(s, reported_tickets(entrants@))
            },
    {
        let counts = ticket_counts(entrants);
        proof {
            assert(as_nats(counts@) =~= reported_tickets(entrants@));
            if counts@.len() <= 1 {
                lemma_short_sum_fits(counts@);
            }
        }
        Self::try_from_ticket_counts(&counts)
    }

    /// [`SpaceEfficientShuffler::new`] for the users of a
    /// [`crate::tickets::Tickets`]: builds the tree over their ticket counts,
    /// asking each user once; `None` when the tickets add up to more than
    /// `usize::MAX`.
    pub fn from_users<'p, U: User<'p>>(users: &Vec<U>) -> (r: Option<Self>)
        ensures
            users.len() <= 1 ==> r is Some,
            r is Some <==> seq_sum(reported_user_tickets(users@)) <= usize::MAX,
            r matches Some(s) ==> {
                &&& s.wf()
                &&& s.num_entrants() == users.len()
                &&& s.remaining() == reported_user_tickets(users@)
                &&& laid_out(s, reported_user_tickets(users@))
                &&& s.node_count() == tree_size(s.remaining())
            },
    {
        let counts = user_ticket_counts(users);
        proof {
            assert(as_nats(counts@) =~= reported_user_tickets(users@));
            if counts@.len() <= 1 {
                lemma_short_sum_fits(counts@);
            }
        }
        Self::try_from_ticket_counts(&counts)
    }

    /// Builds the tree over the given ticket counts, as
    /// [`SpaceEfficientShuffler::from_ticket_counts`] does, when they add up
    /// to at most `usize::MAX`.
    pub fn try_from_ticket_counts(counts: &Vec<usize>) -> (r: Option<Self>)
        ensures
            r is Some <==> seq_sum(as_nats(counts@)) <= usize::MAX,
            r matches Some(s) ==> {
                &&& s.wf()
                &&& s.num_entrants() == counts.len()
                &&& s.remaining() == as_nats(counts@)
                &&& s.total() == seq_sum(as_nats(counts@))
                &&& s.node_count() == tree_size(as_nats(counts@))
                &&& laid_out(s, as_nats(counts@))
                &&& forall|e: int|
                    0 <= e < counts.len() ==> #[trigger] s.leaf_of(e) == if counts@[e] > 0 {
                        tree_leaf(as_nats(counts@), e)
                    } else {
                        -1
                    }
            },
    {
        match checked_total(counts) {
            Some(_) => {
                let s = Self::from_ticket_counts(counts);
                proof {
                    let c = as_nats(counts@);
                    assert forall|e: int| 0 <= e < c.len() && #[trigger] c[e] > 0 implies s.is_leaf_of(
                        positive_count(c) - 1 + positive_count(c.take(e)),
                        e,
                        c[e],
                    ) by {
                        assert(counts@[e] > 0);
                    }
                }
                Some(s)
            },
            None => None,
        }
    }

    /// Builds the tree over the given ticket counts: entrant `e` of the list
    /// gets a leaf holding `counts[e]` tickets when that is positive.
    ///
    /// Make `SpaceEfficientShuffler::binary_tree` a _complete binary tree_,
    /// in which all internal nodes are `BinaryTreeNode::Two`,
    /// and all leaf nodes are `BinaryTreeNode::Leaf`
    fn assemble(binary_tree: Vec<BinaryTreeNode>, slot_of: Ghost<Seq<int>>) -> (r: Self)
        ensures
            r.binary_tree == binary_tree,
            r.slot_of == slot_of,
    {
        Self { binary_tree, slot_of, last_walk: Ghost(Seq::empty()) }
    }

    #[verifier::spinoff_prover]
    pub fn from_ticket_counts(counts: &Vec<usize>) -> (s: Self)
        requires
            seq_sum(as_nats(counts@)) <= usize::MAX,
        ensures
            s.wf(),
            s.num_entrants() == counts.len(),
            s.remaining() == as_nats(counts@),
            s.total() == seq_sum(as_nats(counts@)),
            s.node_count() == tree_size(as_nats(counts@)),
            forall|e: int|
                0 <= e < counts.len() && #[trigger] counts@[e] > 0 ==> s.is_leaf_of(
                    positive_count(as_nats(counts@)) - 1 + positive_count(as_nats(counts@).take(e)),
                    e,
                    counts@[e] as nat,
                ),
            forall|i: int| 0 <= i < positive_count(as_nats(counts@)) - 1 ==> #[trigger] s.is_fork(i),
            forall|e: int|
                0 <= e < counts.len() ==> #[trigger] s.leaf_of(e) == if counts@[e] > 0 {
                    tree_leaf(as_nats(counts@), e)
                } else {
                    -1
                },
    {
        let mut leaves: Vec<BinaryTreeNode> = Vec::new();
        let ghost mut pos: Seq<int> = Seq::empty();
        let ghost mut vals: Seq<nat> = Seq::empty();
        let mut e: usize = 0;
        while e < counts.len()
            invariant
                e <= counts.len(),
                pos.len() == e,
                vals.len() == leaves.len(),
                leaves.len() <= e,
                forall|k: int|
                    0 <= k < leaves.len() ==> {
                        &&& #[trigger] leaves@[k] is Leaf
                        &&& leaves@[k]->entrant < e
                        &&& leaves@[k]->ticket_count > 0
                        &&& vals[k] == leaves@[k]->ticket_count
                        &&& pos[leaves@[k]->entrant as int] == k
                    },
                forall|f: int|
                    0 <= f < e ==> {
                        &&& (counts@[f] > 0 ==> 0 <= #[trigger] pos[f] < leaves.len())
                        &&& (counts@[f] == 0 ==> pos[f] == -1)
                        &&& (pos[f] >= 0 ==> leaves@[pos[f]]->entrant == f && leaves@[pos[f]]->ticket_count == counts@[f])
                    },
                seq_sum(vals) == seq_sum(as_nats(counts@.take(e as int))),
                leaves.len() == positive_count(as_nats(counts@.take(e as int))),
                forall|f: int|
                    0 <= f < e && #[trigger] pos[f] >= 0 ==> pos[f] == positive_count(
                        as_nats(counts@).take(f),
                    ),
            decreases counts.len() - e,
        {
            proof {
                assert(as_nats(counts@.take(e + 1)).drop_last() =~= as_nats(counts@.take(e as int)));
            }
            let c = counts[e];
            if c > 0 {
                proof {
                    assert(as_nats(counts@).take(e as int) =~= as_nats(counts@.take(e as int)));
                    pos = pos.push(leaves.len() as int);
                    assert(vals.push(c as nat).drop_last() =~= vals);
                    vals = vals.push(c as nat);
                }
                leaves.push(BinaryTreeNode::Leaf { entrant: e, ticket_count: c });
            } else {
                proof {
                    pos = pos.push(-1);
                }
            }
            e = e + 1;
        }
        proof {
            assert(counts@.take(counts.len() as int) =~= counts@);
        }
        let num_leaves = leaves.len();
        if num_leaves == 0 {
            // early return s.t. later we may assume non-zero entrant count
            let ghost s: Seq<int> = Seq::new(counts.len() as nat, |f: int| -1int);
            let r = Self::assemble(leaves, Ghost(s));
            proof {
                assert forall|f: int| 0 <= f < counts.len() implies #[trigger] r.remaining()[f]
                    == as_nats(counts@)[f] by {
                    assert(pos[f] == -1);
                }
                assert(r.remaining() =~= as_nats(counts@));
                assert(leaf_values(r.binary_tree@) =~= Seq::<nat>::empty());
                assert forall|f: int| 0 <= f < counts.len() implies !(#[trigger] counts@[f] > 0) by {
                    if counts@[f] > 0 {
                        assert(0 <= pos[f] < leaves.len());
                    }
                }
            }
            return r;
        }
        // to make a complete binary tree in which leaf node iff `BinaryTreeNode::Leaf`,
        // # of internal nodes is exactly one less than (# of leafs i.e. # of entrants)

        let ghost leaves0 = leaves@;
        let mut binary_tree: Vec<BinaryTreeNode> = Vec::new();
        let mut k: usize = 0;
        while k < num_leaves - 1
            invariant
                k <= num_leaves - 1,
                binary_tree.len() == k,
                forall|j: int| 0 <= j < k ==> #[trigger] binary_tree@[j] is Vacant,
            decreases num_leaves - 1 - k,
        {
            binary_tree.push(BinaryTreeNode::Vacant);
            k = k + 1;
        }
        let ghost nones = binary_tree@;
        binary_tree.append(&mut leaves);
        let n = binary_tree.len();
        proof {
            assert(binary_tree@ =~= nones + leaves0);
            assert forall|j: int| num_leaves - 1 <= j < n implies binary_tree@[j] == leaves0[j - (num_leaves - 1)] by {
            }
        }
        let ghost first_leaf = num_leaves - 1;
        let ghost slots: Seq<int> = Seq::new(
            counts.len() as nat,
            |f: int| if pos[f] >= 0 { first_leaf + pos[f] } else { -1 },
        );
        let ghost lv0 = leaf_values(binary_tree@);
        proof {
            assert(n == 2 * num_leaves - 1);
            assert forall|j: int| is_leaf(n as int, j) implies lv0[j] > 0 by {
                assert(j >= first_leaf);
                assert(binary_tree@[j] == leaves0[j - first_leaf]);
            }
            assert(lv0.subrange(first_leaf, n as int) =~= vals);
            lemma_subtree_root_sum(lv0);
            assert((n - 1) / 2 == first_leaf);
        }
        // complete binary tree: (# leaves) = L <=> (# nodes) = 2*L-1
        // thus last internal node has index one less than length divided by two.
        let mut idx_internal_node = n / 2;
        while idx_internal_node > 0
            invariant
                n == binary_tree.len(),
                n == 2 * num_leaves - 1,
                num_leaves >= 1,
                leaves0.len() == num_leaves,
                idx_internal_node <= n / 2,
                n / 2 == first_leaf,
                forall|j: int| first_leaf <= j < n ==> binary_tree@[j] == leaves0[j - first_leaf],
                forall|j: int|
                    #![trigger binary_tree@[j]]
                    0 <= j < first_leaf ==> {
                        &&& (j < idx_internal_node ==> binary_tree@[j] is Vacant)
                        &&& (j >= idx_internal_node ==> binary_tree@[j] is Two
                            && binary_tree@[j]->total_tickets_of_subtree == tickets(binary_tree@, j))
                    },
                leaf_values(binary_tree@) == lv0,
                forall|j: int| is_leaf(n as int, j) ==> lv0[j] > 0,
                subtree_sum(lv0, 0) <= usize::MAX,
                forall|k: int|
                    0 <= k < leaves0.len() ==> {
                        &&& #[trigger] leaves0[k] is Leaf
                        &&& leaves0[k]->ticket_count > 0
                    },
            decreases idx_internal_node,
        {
            idx_internal_node = idx_internal_node - 1;
            let i = idx_internal_node;
            let l = Self::left(i);
            let r = Self::right(i);
            proof {
                lemma_desc_root(i as int);
                lemma_subtree_ge(lv0, 0, i as int);
                assert(tickets(binary_tree@, i as int) == tickets(binary_tree@, l as int) + tickets(binary_tree@, r as int));
                if l >= first_leaf {
                    assert(r >= first_leaf);
                }
                assert(tickets(binary_tree@, i as int) <= usize::MAX);
                let bl = binary_tree@[l as int];
                let br = binary_tree@[r as int];
                if l < first_leaf {
                    assert(bl is Two && bl->total_tickets_of_subtree == tickets(binary_tree@, l as int));
                } else {
                    assert(bl == leaves0[l - first_leaf]);
                    assert(leaves0[l - first_leaf] is Leaf);
                    assert(tickets(binary_tree@, l as int) == lv0[l as int]);
                }
                if r < first_leaf {
                    assert(br is Two && br->total_tickets_of_subtree == tickets(binary_tree@, r as int));
                } else {
                    assert(r >= first_leaf);
                    assert(br == leaves0[r - first_leaf]);
                    assert(leaves0[r - first_leaf] is Leaf);
                    assert(tickets(binary_tree@, r as int) == lv0[r as int]);
                }
            }
            let total = match (&binary_tree[l], &binary_tree[r]) {
                (
                    BinaryTreeNode::Leaf { ticket_count: a, .. },
                    BinaryTreeNode::Leaf { ticket_count: b, .. },
                ) => *a + *b,
                (
                    BinaryTreeNode::Two { total_tickets_of_subtree: a },
                    BinaryTreeNode::Leaf { ticket_count: b, .. },
                ) => *a + *b,
                (
                    BinaryTreeNode::Two { total_tickets_of_subtree: a },
                    BinaryTreeNode::Two { total_tickets_of_subtree: b },
                ) => *a + *b,
                _ => {
                    proof {
                        assert(false);
                    }
                    0
                },
            };
            binary_tree.set(i, BinaryTreeNode::Two { total_tickets_of_subtree: total });
            proof {
                assert(leaf_values(binary_tree@) =~= lv0);
            }
        }
        let r = Self::assemble(binary_tree, Ghost(slots));
        proof {
            let t = r.binary_tree@;
            assert forall|i: int| 0 <= i < t.len() implies #[trigger] node_ok(t, i) by {
                if is_internal(n as int, i) {
                    lemma_subtree_pos(lv0, 2 * i + 1);
                    lemma_subtree_pos(lv0, 2 * i + 2);
                } else {
                    assert(t[i] == leaves0[i - first_leaf]);
                }
            }
            assert forall|f: int| 0 <= f < counts.len() implies #[trigger] r.remaining()[f]
                == as_nats(counts@)[f] by {
                if pos[f] >= 0 {
                    assert(t[slots[f]] == leaves0[pos[f]]);
                }
            }
            assert(r.remaining() =~= as_nats(counts@));
            assert(num_leaves == positive_count(as_nats(counts@)));
            r.lemma_laid_out(counts@, pos, leaves0);
            assert forall|j: int| is_leaf(n as int, j) && #[trigger] t[j] is Leaf implies {
                &&& t[j]->entrant < slots.len()
                &&& slots[t[j]->entrant as int] == j
            } by {
                assert(t[j] == leaves0[j - first_leaf]);
            }
            assert forall|f: int| 0 <= f < slots.len() && #[trigger] slots[f] >= 0 implies {
                &&& is_leaf(n as int, slots[f])
                &&& (t[slots[f]] is Vacant || (t[slots[f]] is Leaf && t[slots[f]]->entrant == f))
            } by {
                assert(t[slots[f]] == leaves0[pos[f]]);
            }
            assert forall|e1: int, e2: int|
                0 <= e1 < slots.len() && 0 <= e2 < slots.len() && #[trigger] slots[e1] >= 0
                    && slots[e1] == #[trigger] slots[e2] implies e1 == e2 by {
                assert(leaves0[pos[e1]]->entrant == e1);
                assert(leaves0[pos[e2]]->entrant == e2);
            }
        }
        r
    }

    /// Remove tickets from all the ancestor nodes including self,
    /// keeping the counters (`BinaryTreeNode::Two`) sane.
    ///
    /// Input index must be `BinaryTreeNode::Leaf`.
    fn decrease_tickets_count(&mut self, idx: usize, decrement: usize)
        requires
            old(self).wf(),
            is_leaf(old(self).binary_tree@.len() as int, idx as int),
            old(self).binary_tree@[idx as int] is Leaf,
            0 < decrement <= old(self).binary_tree@[idx as int]->ticket_count,
        ensures
            final(self).wf(),
            final(self).slot_of == old(self).slot_of,
            final(self).binary_tree@.len() == old(self).binary_tree@.len(),
            final(self).remaining() == old(self).remaining().update(
                old(self).binary_tree@[idx as int]->entrant as int,
                (old(self).binary_tree@[idx as int]->ticket_count - decrement) as nat,
            ),
            final(self).total() == old(self).total() - decrement,
            forall|x: int|
                0 <= x < old(self).binary_tree@.len() && !is_desc(x, idx as int) ==> #[trigger] final(self).binary_tree@[x]
                    == old(self).binary_tree@[x],
            final(self).last_walk == old(self).last_walk,
            leaf_values(final(self).binary_tree@) == leaf_values(old(self).binary_tree@).update(
                idx as int,
                (old(self).binary_tree@[idx as int]->ticket_count - decrement) as nat,
            ),
            final(self).binary_tree@[idx as int] == (if decrement < old(self).binary_tree@[idx as int]->ticket_count {
                BinaryTreeNode::Leaf {
                    entrant: old(self).binary_tree@[idx as int]->entrant,
                    ticket_count: (old(self).binary_tree@[idx as int]->ticket_count - decrement) as usize,
                }
            } else {
                BinaryTreeNode::Vacant
            }),
            forall|x: int|
                0 <= x < old(self).binary_tree@.len() && x != idx && #[trigger] final(self).binary_tree@[x] is Two
                    ==> old(self).binary_tree@[x] is Two && final(self).binary_tree@[x]->total_tickets_of_subtree
                    == old(self).binary_tree@[x]->total_tickets_of_subtree - decrement
                    || !is_desc(x, idx as int),
    {
        let ghost t0 = self.binary_tree@;
        let ghost n = t0.len() as int;
        let ghost lv0 = leaf_values(t0);
        let ghost c = t0[idx as int]->ticket_count;
        let ghost e = t0[idx as int]->entrant as int;
        // the input index should be taken care of
        let (entrant, ticket_count) = match &self.binary_tree[idx] {
            BinaryTreeNode::Leaf { entrant, ticket_count } => (*entrant, *ticket_count),
            _ => {
                proof {
                    assert(false);
                }
                (0, 0)
            },
        };
        if ticket_count - decrement > 0 {
            self.binary_tree.set(
                idx,
                BinaryTreeNode::Leaf { entrant, ticket_count: ticket_count - decrement },
            );
        } else {
            self.binary_tree.set(idx, BinaryTreeNode::Vacant);
        }
        let ghost lv1 = lv0.update(idx as int, (c - decrement) as nat);
        proof {
            assert(leaf_values(self.binary_tree@) =~= lv1);
            assert forall|x: int| 0 <= x < n implies #[trigger] tickets(self.binary_tree@, x) as int
                == tickets(t0, x) - (if is_desc(x, idx as int) { decrement as int } else { 0 }) by {
                lemma_subtree_update_leaf(lv0, idx as int, (c - decrement) as nat, x);
            }
            assert forall|x: int| 0 <= x < n && !is_desc(x, idx as int) implies #[trigger] node_relaxed(
                self.binary_tree@,
                x,
                idx as int,
            ) by {
                assert(node_ok(t0, x));
                let t = self.binary_tree@;
                assert(t[x] == t0[x]);
                if is_desc(x, idx as int) {
                    assert(x < idx) by {
                        if x > idx {
                            lemma_desc_split(idx as int, x);
                        }
                    }
                }
                if !is_desc(x, idx as int) && is_internal(n, x) {
                    lemma_desc_children(x);
                    if is_desc(2 * x + 1, idx as int) {
                        lemma_desc_trans(x, 2 * x + 1, idx as int);
                    }
                    if is_desc(2 * x + 2, idx as int) {
                        lemma_desc_trans(x, 2 * x + 2, idx as int);
                    }
                    match t0[x] {
                        BinaryTreeNode::One { descendant_idx } => {
                            if is_desc(descendant_idx as int, idx as int) {
                                lemma_desc_trans(x, descendant_idx as int, idx as int);
                            }
                        },
                        _ => {},
                    }
                }
            }
            assert(node_relaxed(self.binary_tree@, idx as int, idx as int));
            assert(slots_ok(t0, self.slot_of@));
            assert(t0[idx as int] is Leaf);
            assert(slots_ok(self.binary_tree@, self.slot_of@));
        }
        let ghost t1 = self.binary_tree@;
        proof {
            assert forall|x: int|
                0 <= x < n && is_desc(x, idx as int) && x != idx implies !(#[trigger] t0[x] is Vacant) by {
                assert(node_ok(t0, x));
                lemma_subtree_ge(lv0, x, idx as int);
            }
        }
        let mut jdx = idx;
        while jdx > 0
            invariant
                n == t0.len(),
                n == self.binary_tree@.len(),
                tree_ok(t0),
                is_leaf(n, idx as int),
                t0[idx as int] is Leaf,
                c == t0[idx as int]->ticket_count,
                0 < decrement <= c,
                lv0 == leaf_values(t0),
                lv1 == lv0.update(idx as int, (c - decrement) as nat),
                leaf_values(self.binary_tree@) == lv1,
                t1.len() == n,
                self.slot_of == old(self).slot_of,
                self.last_walk == old(self).last_walk,
                forall|j: int| is_leaf(n, j) ==> #[trigger] self.binary_tree@[j] == t1[j],
                forall|x: int|
                    0 <= x < n && is_desc(x, idx as int) && x != idx ==> !(#[trigger] t0[x] is Vacant),
                forall|x: int|
                    0 <= x < n && is_desc(x, idx as int) && x != idx ==> !(#[trigger] self.binary_tree@[x] is Vacant),
                forall|x: int|
                    0 <= x < n ==> #[trigger] tickets(self.binary_tree@, x) as int == tickets(t0, x)
                        - (if is_desc(x, idx as int) { decrement as int } else { 0 }),
                0 <= jdx < n,
                is_desc(jdx as int, idx as int),
                forall|x: int|
                    0 <= x < n && is_desc(x, jdx as int) && x != jdx ==> #[trigger] self.binary_tree@[x]
                        == t0[x],
                forall|x: int|
                    0 <= x < n && !is_desc(x, idx as int) ==> #[trigger] self.binary_tree@[x] == t0[x],
                forall|x: int|
                    0 <= x < n && x != idx && is_desc(x, idx as int) && !(is_desc(x, jdx as int) && x != jdx)
                        && #[trigger] self.binary_tree@[x] is Two ==> t0[x] is Two
                        && self.binary_tree@[x]->total_tickets_of_subtree == t0[x]->total_tickets_of_subtree
                        - decrement,
                forall|x: int|
                    0 <= x < n && !(is_desc(x, jdx as int) && x != jdx) ==> #[trigger] node_relaxed(
                        self.binary_tree@,
                        x,
                        idx as int,
                    ),
                forall|x: int|
                    0 <= x < n && !(is_desc(x, jdx as int) && x != jdx) && is_desc(x, idx as int)
                        && #[trigger] self.binary_tree@[x] is One ==> is_desc(
                        self.binary_tree@[x]->descendant_idx as int,
                        idx as int,
                    ),
            decreases jdx,
        {
            let parent_idx = match Self::parent(jdx) {
                Some(p) => p,
                None => {
                    proof {
                        assert(false);
                    }
                    0
                },
            };
            let ghost t = self.binary_tree@;
            let ghost p = parent_idx as int;
            proof {
                lemma_desc_parent(jdx as int);
                lemma_desc_trans(p, jdx as int, idx as int);
                assert(node_ok(t0, p));
                assert(t[p] == t0[p]);
                lemma_subtree_ge(lv0, p, idx as int);
                lemma_desc_split(p, idx as int);
                assert(is_internal(n, p));
                lemma_desc_children(p);
                assert(tickets(t, p) as int == tickets(t0, p) - decrement);
                assert(tickets(t, 2 * p + 1) as int == tickets(t0, 2 * p + 1) - (if is_desc(2 * p + 1, idx as int) { decrement as int } else { 0 }));
                assert(tickets(t, 2 * p + 2) as int == tickets(t0, 2 * p + 2) - (if is_desc(2 * p + 2, idx as int) { decrement as int } else { 0 }));
            }
            match &self.binary_tree[parent_idx] {
                BinaryTreeNode::Vacant => {
                    proof {
                        assert(false);
                    }
                },
                BinaryTreeNode::Leaf { .. } => {
                    proof {
                        assert(false);
                    }
                },
                BinaryTreeNode::One { descendant_idx } => {
                    proof {
                        let d = *descendant_idx as int;
                        if !is_desc(d, idx as int) {
                            if is_desc(idx as int, d) {
                                lemma_desc_split(idx as int, d);
                            }
                            lemma_subtree_disjoint(lv0, p, d, idx as int);
                        }
                        assert(tickets(t, d) as int == tickets(t0, d) - decrement);
                        lemma_desc_children(p);
                        if is_desc(2 * p + 1, idx as int) {
                            lemma_subtree_ge(lv0, 2 * p + 1, idx as int);
                        }
                        if is_desc(2 * p + 2, idx as int) {
                            lemma_subtree_ge(lv0, 2 * p + 2, idx as int);
                        }
                        assert(node_relaxed(t, p, idx as int));
                    }
                },
                BinaryTreeNode::Two { total_tickets_of_subtree } => {
                    let total = *total_tickets_of_subtree;
                    proof {
                        lemma_desc_children(p);
                        if is_desc(2 * p + 1, idx as int) {
                            assert(!is_desc(2 * p + 2, idx as int));
                        }
                    }
                    self.binary_tree.set(
                        parent_idx,
                        BinaryTreeNode::Two { total_tickets_of_subtree: total - decrement },
                    );
                    proof {
                        assert(leaf_values(self.binary_tree@) =~= lv1);
                        lemma_same_leaves(t, self.binary_tree@);
                        assert(node_relaxed(self.binary_tree@, p, idx as int));
                    }
                },
            }
            proof {
                let t2 = self.binary_tree@;
                assert(leaf_values(t2) =~= leaf_values(t));
                lemma_same_leaves(t, t2);
                assert forall|x: int|
                    0 <= x < n && !(is_desc(x, p) && x != p) implies #[trigger] node_relaxed(
                    t2,
                    x,
                    idx as int,
                ) by {
                    if x != p {
                        if is_desc(x, jdx as int) && x != jdx {
                            assert(is_desc(x, p));
                        }
                        assert(t2[x] == t[x]);
                        assert(node_relaxed(t, x, idx as int));
                    }
                }
                assert forall|x: int| 0 <= x < n implies #[trigger] tickets(t2, x) as int == tickets(t0, x)
                    - (if is_desc(x, idx as int) { decrement as int } else { 0 }) by {
                    assert(tickets(t, x) == tickets(t2, x));
                }
                assert forall|x: int| 0 <= x < n && is_desc(x, p) && x != p implies #[trigger] t2[x]
                    == t0[x] by {
                    lemma_desc_trans(x, p, jdx as int);
                }
                assert forall|x: int|
                    0 <= x < n && x != idx && is_desc(x, idx as int) && !(is_desc(x, p) && x != p) && #[trigger] t2[x] is Two implies t0[x] is Two
                        && t2[x]->total_tickets_of_subtree == t0[x]->total_tickets_of_subtree - decrement by {
                    if x != p {
                        if is_desc(x, jdx as int) && x != jdx {
                            assert(is_desc(x, p));
                        }
                        assert(t2[x] == t[x]);
                    } else {
                        assert(t[p] == t0[p]);
                    }
                }
                assert forall|x: int|
                    0 <= x < n && is_desc(x, idx as int) && x != idx implies !(#[trigger] t2[x] is Vacant) by {
                    if x != p {
                        assert(t2[x] == t[x]);
                    }
                }
                assert forall|x: int|
                    0 <= x < n && !(is_desc(x, p) && x != p) && is_desc(x, idx as int)
                        && #[trigger] t2[x] is One implies is_desc(
                    t2[x]->descendant_idx as int,
                    idx as int,
                ) by {
                    if x != p {
                        if is_desc(x, jdx as int) && x != jdx {
                            assert(is_desc(x, p));
                        }
                    }
                }
            }
            jdx = parent_idx;
        }
        proof {
            let t = self.binary_tree@;
            assert forall|x: int| 0 <= x < n && is_desc(x, 0) implies x == 0 by {}
            assert(tickets(t, 0) == tickets(t0, 0) - decrement) by {
                lemma_desc_root(idx as int);
            }
        }
        let ghost t_up = self.binary_tree@;
        proof {
            assert(t_up[idx as int] == t1[idx as int]);
        }
        let vacant = match &self.binary_tree[idx] {
            BinaryTreeNode::Vacant => true,
            _ => false,
        };
        if vacant {
            proof {
                let t = self.binary_tree@;
                assert forall|x: int|
                    0 <= x < n && !(is_desc(x, idx as int) && x != idx) implies #[trigger] node_ok(
                    t,
                    x,
                ) by {
                    if x != idx {
                        lemma_relaxed_off_path(t, x, idx as int);
                    }
                }
            }
            self.trim(idx);
        } else {
            proof {
                let t = self.binary_tree@;
                assert forall|x: int| 0 <= x < n implies #[trigger] node_ok(t, x) by {
                    if x != idx {
                        if is_desc(x, idx as int) {
                            lemma_relaxed_above(t, x, idx as int, idx as int);
                        } else {
                            lemma_relaxed_off_path(t, x, idx as int);
                        }
                    }
                }
            }
        }
        proof {
            let t = self.binary_tree@;
            let s = self.slot_of@;
            let r0 = remaining_of(t0, s);
            assert(slots_ok(t0, s));
            assert(e < s.len() && s[e] == idx);
            assert forall|f: int| 0 <= f < s.len() implies #[trigger] remaining_of(t, s)[f]
                == r0.update(e, (c - decrement) as nat)[f] by {
                if f != e && s[f] >= 0 {
                    assert(s[f] != idx);
                    assert(leaf_values(t)[s[f]] == lv1[s[f]]);
                }
                if f == e {
                    assert(leaf_values(t)[idx as int] == lv1[idx as int]);
                }
            }
            lemma_seq_sum_update(r0, e, (c - decrement) as nat);
            assert(remaining_of(t, s) =~= r0.update(e, (c - decrement) as nat));
            assert(t[idx as int] == t_up[idx as int]);
            assert forall|x: int|
                0 <= x < n && x != idx && #[trigger] t[x] is Two implies t0[x] is Two
                    && t[x]->total_tickets_of_subtree == t0[x]->total_tickets_of_subtree - decrement
                    || !is_desc(x, idx as int) by {
                assert(t[x] == t_up[x]);
            }
        }
    }

    /// New `BinaryTreeNode::Vacant` is produced as a side product of `Self::decrease_tickets_count`;
    /// update the ancestors, i.e.
    /// `BinaryTreeNode::Two` -> `BinaryTreeNode::One`,
    /// `BinaryTreeNode::One` -> `BinaryTreeNode::Vacant`,
    /// if appropriate.
    ///
    /// N.B.
    /// The ticket counters are assumed to be valid and thus _not_ modified.
    /// Input must be valid index.
    fn trim(&mut self, start: usize)
        requires
            old(self).binary_tree@.len() % 2 == 1,
            is_leaf(old(self).binary_tree@.len() as int, start as int),
            old(self).binary_tree@[start as int] is Vacant,
            forall|x: int|
                0 <= x < old(self).binary_tree@.len() ==> #[trigger] node_relaxed(
                    old(self).binary_tree@,
                    x,
                    start as int,
                ),
            forall|x: int|
                0 <= x < old(self).binary_tree@.len() && !(is_desc(x, start as int) && x != start)
                    ==> #[trigger] node_ok(old(self).binary_tree@, x),
            forall|x: int|
                0 <= x < old(self).binary_tree@.len() && is_desc(x, start as int)
                    && #[trigger] old(self).binary_tree@[x] is One ==> is_desc(
                    old(self).binary_tree@[x]->descendant_idx as int,
                    start as int,
                ),
            forall|x: int|
                0 <= x < old(self).binary_tree@.len() && is_desc(x, start as int) && x != start
                    ==> !(#[trigger] old(self).binary_tree@[x] is Vacant),
        ensures
            tree_ok(final(self).binary_tree@),
            leaf_values(final(self).binary_tree@) == leaf_values(old(self).binary_tree@),
            final(self).binary_tree@.len() == old(self).binary_tree@.len(),
            forall|j: int|
                is_leaf(final(self).binary_tree@.len() as int, j) ==> #[trigger] final(self).binary_tree@[j]
                    == old(self).binary_tree@[j],
            forall|x: int|
                0 <= x < old(self).binary_tree@.len() && !is_desc(x, start as int) ==> #[trigger] final(self).binary_tree@[x]
                    == old(self).binary_tree@[x],
            forall|x: int|
                0 <= x < old(self).binary_tree@.len() && #[trigger] final(self).binary_tree@[x]
                    != old(self).binary_tree@[x] ==> final(self).binary_tree@[x] is Vacant
                    || final(self).binary_tree@[x] is One,
            final(self).slot_of == old(self).slot_of,
            final(self).last_walk == old(self).last_walk,
    {
        let ghost t0 = self.binary_tree@;
        let ghost n = t0.len() as int;
        let ghost lv = leaf_values(t0);
        let len = self.binary_tree.len();
        let mut i = start;
        loop
            invariant_except_break
                0 <= i < n,
                is_desc(i as int, start as int),
                self.binary_tree@[i as int] is Vacant,
                forall|x: int|
                    0 <= x < n ==> #[trigger] node_relaxed(self.binary_tree@, x, start as int),
                forall|x: int|
                    0 <= x < n && !(is_desc(x, i as int) && x != i) ==> #[trigger] node_ok(
                        self.binary_tree@,
                        x,
                    ),
                forall|x: int|
                    0 <= x < n && is_desc(x, i as int) && x != i
                        && #[trigger] self.binary_tree@[x] is One ==> is_desc(
                        self.binary_tree@[x]->descendant_idx as int,
                        start as int,
                    ),
                forall|x: int|
                    0 <= x < n && is_desc(x, i as int) && x != i ==> !(#[trigger] self.binary_tree@[x] is Vacant),
            invariant
                n == self.binary_tree@.len(),
                n <= usize::MAX,
                n % 2 == 1,
                lv == leaf_values(self.binary_tree@),
                self.slot_of == old(self).slot_of,
                self.last_walk == old(self).last_walk,
                forall|j: int| is_leaf(n, j) ==> #[trigger] self.binary_tree@[j] == t0[j],
                is_leaf(n, start as int),
                t0.len() == n,
                forall|x: int|
                    0 <= x < n && !is_desc(x, start as int) ==> #[trigger] self.binary_tree@[x] == t0[x],
                forall|x: int|
                    0 <= x < n && #[trigger] self.binary_tree@[x] != t0[x] ==> self.binary_tree@[x] is Vacant
                        || self.binary_tree@[x] is One,
            ensures
                tree_ok(self.binary_tree@),
                lv == leaf_values(self.binary_tree@),
                n == self.binary_tree@.len(),
                forall|j: int| is_leaf(n, j) ==> #[trigger] self.binary_tree@[j] == t0[j],
                self.slot_of == old(self).slot_of,
                self.last_walk == old(self).last_walk,
            decreases i,
        {
            let ghost t = self.binary_tree@;
            let parent_idx = match Self::parent(i) {
                Some(p) => p,
                None => {
                    proof {
                        assert forall|x: int| 0 <= x < n implies #[trigger] node_ok(t, x) by {
                            assert(!(is_desc(x, 0) && x != 0));
                        }
                    }
                    break ;
                },
            };
            let vacant = match &self.binary_tree[i] {
                BinaryTreeNode::Vacant => true,
                _ => false,
            };
            if !vacant {
                break ;
            }
            let ghost p = parent_idx as int;
            proof {
                lemma_desc_parent(i as int);
                lemma_desc_trans(p, i as int, start as int);
                assert(node_relaxed(t, p, start as int));
                assert(node_ok(t, i as int));
                if !is_internal(n, i as int) {
                    assert(tickets(t, i as int) == lv[i as int]);
                }
                assert(tickets(t, i as int) == 0);
                lemma_desc_children(p);
                lemma_desc_not_both(p, start as int);
            }
            match &self.binary_tree[parent_idx] {
                BinaryTreeNode::Leaf { .. } => {
                    proof {
                        assert(false);
                    }
                    break ;
                },
                BinaryTreeNode::Vacant => {
                    proof {
                        assert(false);
                    }
                    break ;
                },
                BinaryTreeNode::One { descendant_idx } => {
                    // The parent `BinaryTreeNode::One` used to point to either
                    // `BinaryTreeNode::One` or `BinaryTreeNode::Leaf`,
                    // but now the child is `BinaryTreeNode::Vacant`.
                    // Thus this parent should become `BinaryTreeNode::Vacant`, too.
                    proof {
                        let d = *descendant_idx as int;
                        assert(is_desc(d, start as int));
                        lemma_desc_ordered(d, i as int, start as int);
                        if is_desc(i as int, d) {
                            lemma_subtree_ge(lv, i as int, d);
                        } else if d != i {
                            assert(is_desc(d, p));
                        }
                        assert(tickets(t, p) == 0);
                    }
                    self.binary_tree.set(parent_idx, BinaryTreeNode::Vacant);
                    proof {
                        let t2 = self.binary_tree@;
                        assert(leaf_values(t2) =~= lv);
                        lemma_same_leaves(t, t2);
                        assert(node_ok(t2, p));
                        assert forall|x: int|
                            0 <= x < n && !(is_desc(x, p) && x != p) implies #[trigger] node_ok(
                            t2,
                            x,
                        ) by {
                            if x != p {
                                if is_desc(x, i as int) && x != i {
                                    assert(is_desc(x, p));
                                }
                                assert(t2[x] == t[x]);
                                assert(node_ok(t, x));
                            }
                        }
                        assert forall|x: int| 0 <= x < n implies #[trigger] node_relaxed(
                            t2,
                            x,
                            start as int,
                        ) by {
                            if x != p {
                                assert(t2[x] == t[x]);
                                assert(node_relaxed(t, x, start as int));
                            }
                        }
                        assert forall|x: int|
                            0 <= x < n && is_desc(x, p) && x != p && #[trigger] t2[x] is One implies is_desc(
                            t2[x]->descendant_idx as int,
                            start as int,
                        ) by {
                            lemma_desc_trans(x, p, i as int);
                        }
                        assert forall|x: int|
                            0 <= x < n && is_desc(x, p) && x != p implies !(#[trigger] t2[x] is Vacant) by {
                            lemma_desc_trans(x, p, i as int);
                        }
                    }
                    i = parent_idx;
                },
                BinaryTreeNode::Two { .. } => {
                    // Lazy: we don't care what's the sibling,
                    // for the `SpaceEfficientShuffler::try_draw_one` would trim them as they see fit:
                    // if that sibling has few tickets, it might not be accessed ever again anyway
                    let sib = Self::sibling(i);
                    self.binary_tree.set(
                        parent_idx,
                        BinaryTreeNode::One { descendant_idx: sib },
                    );
                    proof {
                        let t2 = self.binary_tree@;
                        assert(leaf_values(t2) =~= lv);
                        lemma_same_leaves(t, t2);
                        assert(node_ok(t2, p));
                        assert forall|x: int| 0 <= x < n implies #[trigger] node_ok(t2, x) by {
                            if x != p {
                                assert(t2[x] == t[x]);
                                assert(node_relaxed(t, x, start as int));
                                if is_desc(x, i as int) && x != i {
                                    assert(is_desc(x, p));
                                    lemma_relaxed_above(t2, x, start as int, p);
                                } else {
                                    assert(node_ok(t, x));
                                }
                            }
                        }
                    }
                    break ;
                },
            }
        }
    }

    /// The tickets each node holds by itself: a leaf its entrant's tickets,
    /// any other node none.
    pub closed spec fn leaf_tickets(&self) -> Seq<nat> {
        leaf_values(self.binary_tree@)
    }

    /// The node of the leaf of entrant `e`.
    pub closed spec fn leaf_of(&self, e: int) -> int {
        self.slot_of@[e]
    }

    /// The last walk down the tree: each node where it had a choice, with
    /// the number the generator drew there.
    pub closed spec fn last_walk(&self) -> Seq<(int, Draw)> {
        self.last_walk@
    }

    /// A tree built over `counts` holds at each leaf the tickets its
    /// entrant has left, and nothing elsewhere.
    proof fn lemma_laid_out_tickets(&self, counts: Seq<nat>)
        requires
            self.wf(),
            self.num_entrants() == counts.len(),
            self.node_count() == tree_size(counts),
            forall|e: int|
                0 <= e < counts.len() ==> #[trigger] self.leaf_of(e) == if counts[e] > 0 {
                    tree_leaf(counts, e)
                } else {
                    -1
                },
        ensures
            self.leaf_tickets() == laid_out_tickets(counts, self.remaining()),
    {
        let t = self.binary_tree@;
        let sl = self.slot_of@;
        let l = laid_out_tickets(counts, self.remaining());
        assert(slots_ok(t, sl));
        assert forall|j: int| 0 <= j < t.len() implies #[trigger] leaf_values(t)[j] == l[j] by {
            if exists|e: int| 0 <= e < counts.len() && counts[e] > 0 && tree_leaf(counts, e) == j {
                let e = choose|e: int| 0 <= e < counts.len() && counts[e] > 0 && tree_leaf(counts, e) == j;
                assert(self.leaf_of(e) == j);
                assert(sl[e] >= 0);
                assert(remaining_of(t, sl)[e] == leaf_value(t, j));
            } else {
                if t[j] is Leaf {
                    if is_leaf(t.len() as int, j) {
                        let e = t[j]->entrant as int;
                        assert(sl[e] == j);
                        assert(self.leaf_of(e) == j);
                    } else {
                        assert(node_ok(t, j));
                    }
                }
            }
        }
        assert(leaf_values(t) =~= l);
    }

    /// The last walk of a tree built over `counts` led to the leaf of the
    /// winner `w`, over the tickets the entrants had left before `w` gave
    /// up one of them.
    pub proof fn lemma_walked_laid_out(&self, counts: Seq<nat>, w: int)
        requires
            self.wf(),
            self.num_entrants() == counts.len(),
            self.node_count() == tree_size(counts),
            forall|e: int|
                0 <= e < counts.len() ==> #[trigger] self.leaf_of(e) == if counts[e] > 0 {
                    tree_leaf(counts, e)
                } else {
                    -1
                },
            0 <= w < counts.len(),
            counts[w] > 0,
            walked_to_winner(*self, w),
        ensures
            walk_to(
                laid_out_tickets(counts, self.remaining().update(w, self.remaining()[w] + 1)),
                self.last_walk(),
                tree_leaf(counts, w),
            ),
    {
        self.lemma_laid_out_tickets(counts);
        lemma_positive_count_take(counts, w);
        let rem = self.remaining();
        let j0 = tree_leaf(counts, w);
        assert(0 <= j0 < tree_size(counts));
        assert(self.leaf_of(w) == j0);
        let l = laid_out_tickets(counts, rem);
        let l2 = laid_out_tickets(counts, rem.update(w, rem[w] + 1));
        assert(slots_ok(self.binary_tree@, self.slot_of@));
        assert forall|j: int| 0 <= j < l.len() implies #[trigger] l.update(j0, l[j0] + 1)[j] == l2[j] by {
            if exists|e: int| 0 <= e < counts.len() && counts[e] > 0 && tree_leaf(counts, e) == j {
                let e = choose|e: int| 0 <= e < counts.len() && counts[e] > 0 && tree_leaf(counts, e) == j;
                assert(self.leaf_of(e) == j);
                if j == j0 {
                    assert(self.slot_of@[e] == self.slot_of@[w]);
                    assert(e == w);
                } else {
                    assert(e != w);
                }
            } else {
                assert(j != j0);
            }
        }
        assert(l.update(j0, l[j0] + 1) =~= l2);
    }

    /// The entrant whose leaf is at `idx`.
    pub closed spec fn leaf_entrant(&self, idx: int) -> int {
        self.binary_tree@[idx]->entrant as int
    }

    /// The leaf drawn by [`SpaceEfficientShuffler::draw_leaf`]: a leaf of an
    /// entrant that has tickets left.
    pub closed spec fn drawn_leaf(&self, idx: int) -> bool {
        let t = self.binary_tree@;
        &&& is_leaf(t.len() as int, idx)
        &&& t[idx] is Leaf
        &&& t[idx]->ticket_count > 0
        &&& t[idx]->entrant < self.num_entrants()
        &&& self.remaining()[t[idx]->entrant as int] == t[idx]->ticket_count
    }

    /// Drawing a lucky entrant is done via traversing down the tree via sequence of binary questions,
    /// based on left/right tickets count,
    /// till a node that is exactly one entrant is found.
    ///
    /// During the walk till the lucky entrant, we may find `BinaryTreeNode::One`,
    /// which is residual from `Self::trim`,
    /// meaning exactly one of its left or right child/children is present,
    /// in which case we may try jump to next "interesting" descendant
    /// and record where we jumped via modifying the `BinaryTreeNode::One::descendant_idx`,
    /// for if that descendant is lucky in the sense that one of them are the lucky entrant,
    /// this descendant probably contains a decent amount of tickets,
    /// s.t. this path is probably hot and would probably be walked again.
    ///
    /// Returns the index of the lucky leaf, or `None` when no tickets are left.
    fn draw_leaf<R: Rng + ?Sized>(&mut self, rng: &mut R) -> (r: Option<usize>)
        requires
            old(self).wf(),
            old(self).binary_tree@.len() > 0,
        ensures
            final(self).wf(),
            final(self).slot_of == old(self).slot_of,
            final(self).binary_tree@.len() == old(self).binary_tree@.len(),
            final(self).remaining() == old(self).remaining(),
            final(self).total() == old(self).total(),
            r is None <==> old(self).total() == 0,
            r matches Some(idx) ==> final(self).drawn_leaf(idx as int),
            leaf_values(final(self).binary_tree@) == leaf_values(old(self).binary_tree@),
            r matches Some(idx) ==> walk_to(leaf_values(old(self).binary_tree@), final(self).last_walk@, idx as int),
    {
        let n = self.binary_tree.len();
        let mut idx: usize = 0;
        let ghost lv0 = leaf_values(self.binary_tree@);
        let ghost mut steps: Seq<(int, Draw)> = Seq::empty();
        loop
            invariant
                lv0 == leaf_values(old(self).binary_tree@),
                leaf_values(self.binary_tree@) == lv0,
                lv0.len() == n,
                forall|k: int|
                    #![trigger steps[k]]
                    0 <= k < steps.len() ==> {
                        &&& is_desc(steps[k].0, idx as int)
                        &&& steps[k].0 != idx
                        &&& steps[k].1.below() == subtree_sum(lv0, steps[k].0)
                        &&& is_desc(selected(lv0, steps[k].0, steps[k].1.drawn()), idx as int)
                    },
                forall|x: int|
                    is_desc(x, idx as int) && x != idx && #[trigger] splits(lv0, x) ==> exists|k: int|
                        0 <= k < steps.len() && #[trigger] steps[k].0 == x,
                self.wf(),
                self.binary_tree@.len() == n,
                n == old(self).binary_tree@.len(),
                n > 0,
                self.slot_of == old(self).slot_of,
                self.last_walk == old(self).last_walk,
                self.remaining() == old(self).remaining(),
                self.total() == old(self).total(),
                idx < n,
                idx == 0 || tickets(self.binary_tree@, idx as int) > 0,
            decreases n - idx,
        {
            let ghost t = self.binary_tree@;
            proof {
                assert(node_ok(t, idx as int));
                if !is_internal(n as int, idx as int) {
                    assert(tickets(t, idx as int) == leaf_values(t)[idx as int]);
                }
            }
            match &self.binary_tree[idx] {
                BinaryTreeNode::Vacant => {
                    // This only happens at the root, if all the entrants run out of tickets,
                    // caused by `Self::trim`:
                    // `BinaryTreeNode::Vacant` should be transient elsewhere.
                    return None;
                },
                BinaryTreeNode::One { descendant_idx } => {
                    let mut next_interesting_idx = *descendant_idx;
                    loop
                        invariant
                            self.wf(),
                            self.binary_tree@ == t,
                            n == t.len(),
                            is_internal(n as int, idx as int),
                            idx < next_interesting_idx < n,
                            is_desc(idx as int, next_interesting_idx as int),
                            tickets(t, next_interesting_idx as int) == tickets(t, idx as int),
                        ensures
                            idx < next_interesting_idx < n,
                            is_desc(idx as int, next_interesting_idx as int),
                            tickets(t, next_interesting_idx as int) == tickets(t, idx as int),
                        decreases n - next_interesting_idx,
                    {
                        // try jump further
                        let further = match &self.binary_tree[next_interesting_idx] {
                            BinaryTreeNode::One { descendant_idx } => Some(*descendant_idx),
                            _ => None,
                        };
                        match further {
                            Some(d) => {
                                proof {
                                    assert(node_ok(t, next_interesting_idx as int));
                                    lemma_desc_trans(idx as int, next_interesting_idx as int, d as int);
                                }
                                next_interesting_idx = d;
                            },
                            None => {
                                break ;
                            },
                        }
                    }
                    proof {
                        lemma_retarget(t, self.slot_of@, idx as int, next_interesting_idx);
                        let d = next_interesting_idx as int;
                        assert forall|k: int|
                            #![trigger steps[k]]
                            0 <= k < steps.len() implies {
                            &&& is_desc(steps[k].0, d)
                            &&& steps[k].0 != d
                            &&& is_desc(selected(lv0, steps[k].0, steps[k].1.drawn()), d)
                        } by {
                            lemma_desc_trans(steps[k].0, idx as int, d);
                            lemma_desc_trans(selected(lv0, steps[k].0, steps[k].1.drawn()), idx as int, d);
                        }
                        assert forall|x: int| is_desc(x, d) && x != d && #[trigger] splits(lv0, x) implies exists|k: int|
                            0 <= k < steps.len() && #[trigger] steps[k].0 == x by {
                            lemma_desc_ordered(x, idx as int, d);
                            if x == idx {
                                assert(node_ok(t, idx as int));
                            } else if is_desc(idx as int, x) {
                                lemma_chain_no_split(lv0, idx as int, d, x);
                            }
                        }
                    }
                    self.binary_tree.set(
                        idx,
                        BinaryTreeNode::One { descendant_idx: next_interesting_idx },
                    );
                    proof {
                        lemma_same_leaves(t, self.binary_tree@);
                        assert(leaf_values(self.binary_tree@) =~= lv0);
                    }
                    idx = next_interesting_idx;
                },
                BinaryTreeNode::Two { total_tickets_of_subtree } => {
                    let total = *total_tickets_of_subtree;
                    proof {
                        lemma_desc_children(idx as int);
                        assert(node_ok(t, idx as int));
                        assert(self.is_fork(idx as int));
                    }
                    let g = random_below(rng, total);
                    let next = self.choose_child(idx, g.value());
                    proof {
                        let i = idx as int;
                        let c = next as int;
                        lemma_desc_children(i);
                        let steps1 = steps.push((i, g));
                        assert forall|k: int|
                            #![trigger steps1[k]]
                            0 <= k < steps1.len() implies {
                            &&& is_desc(steps1[k].0, c)
                            &&& steps1[k].0 != c
                            &&& steps1[k].1.below() == subtree_sum(lv0, steps1[k].0)
                            &&& is_desc(selected(lv0, steps1[k].0, steps1[k].1.drawn()), c)
                        } by {
                            if k < steps.len() {
                                assert(steps1[k] == steps[k]);
                                lemma_desc_trans(steps[k].0, i, c);
                                lemma_desc_trans(selected(lv0, steps[k].0, steps[k].1.drawn()), i, c);
                            }
                        }
                        assert forall|x: int| is_desc(x, c) && x != c && #[trigger] splits(lv0, x) implies exists|k: int|
                            0 <= k < steps1.len() && #[trigger] steps1[k].0 == x by {
                            assert(is_desc(x, (c - 1) / 2));
                            if x == i {
                                assert(steps1[steps.len() as int].0 == x);
                            } else {
                                let k = choose|k: int| 0 <= k < steps.len() && #[trigger] steps[k].0 == x;
                                assert(steps1[k].0 == x);
                            }
                        }
                        steps = steps1;
                    }
                    idx = next;
                },
                BinaryTreeNode::Leaf { .. } => {
                    proof {
                        assert(slots_ok(t, self.slot_of@));
                        assert(t[idx as int] is Leaf);
                        assert(self.slot_of@[t[idx as int]->entrant as int] == idx);
                        lemma_desc_root(idx as int);
                        lemma_subtree_ge(leaf_values(t), 0, idx as int);
                    }
                    self.last_walk = Ghost(steps);
                    return Some(idx);
                },
            }
        }
    }

    proof fn lemma_laid_out(&self, counts: Seq<usize>, pos: Seq<int>, leaves: Seq<BinaryTreeNode>)
        requires
            self.slot_of@ == Seq::new(
                counts.len(),
                |f: int| if pos[f] >= 0 { leaves.len() - 1 + pos[f] } else { -1 },
            ),
            forall|f: int| 0 <= f < counts.len() && counts[f] == 0 ==> #[trigger] pos[f] == -1,
            leaves.len() == positive_count(as_nats(counts)),
            leaves.len() >= 1,
            self.binary_tree@.len() == 2 * leaves.len() - 1,
            forall|j: int|
                leaves.len() - 1 <= j < self.binary_tree@.len() ==> self.binary_tree@[j] == leaves[j
                    - (leaves.len() - 1)],
            forall|j: int|
                #![trigger self.binary_tree@[j]]
                0 <= j < leaves.len() - 1 ==> self.binary_tree@[j] is Two
                    && self.binary_tree@[j]->total_tickets_of_subtree == tickets(self.binary_tree@, j),
            pos.len() == counts.len(),
            forall|f: int|
                0 <= f < counts.len() ==> {
                    &&& (counts[f] > 0 ==> 0 <= #[trigger] pos[f] < leaves.len())
                    &&& (pos[f] >= 0 ==> leaves[pos[f]] is Leaf && leaves[pos[f]]->entrant == f
                        && leaves[pos[f]]->ticket_count == counts[f])
                },
            forall|f: int|
                0 <= f < counts.len() && #[trigger] pos[f] >= 0 ==> pos[f] == positive_count(
                    as_nats(counts).take(f),
                ),
        ensures
            forall|e: int|
                0 <= e < counts.len() && #[trigger] counts[e] > 0 ==> self.is_leaf_of(
                    positive_count(as_nats(counts)) - 1 + positive_count(as_nats(counts).take(e)),
                    e,
                    counts[e] as nat,
                ),
            forall|i: int| 0 <= i < positive_count(as_nats(counts)) - 1 ==> #[trigger] self.is_fork(i),
            forall|e: int|
                0 <= e < counts.len() ==> #[trigger] self.leaf_of(e) == if counts[e] > 0 {
                    tree_leaf(as_nats(counts), e)
                } else {
                    -1
                },
    {
        let t = self.binary_tree@;
        assert forall|e: int| 0 <= e < counts.len() implies #[trigger] self.leaf_of(e) == if counts[e] > 0 {
            tree_leaf(as_nats(counts), e)
        } else {
            -1
        } by {
            if counts[e] > 0 {
                assert(pos[e] >= 0);
            }
        }
        let first_leaf = leaves.len() - 1;
        assert forall|f: int|
            0 <= f < counts.len() && #[trigger] counts[f] > 0 implies self.is_leaf_of(
            positive_count(as_nats(counts)) - 1 + positive_count(as_nats(counts).take(f)),
            f,
            counts[f] as nat,
        ) by {
            assert(pos[f] >= 0);
            assert(t[first_leaf + pos[f]] == leaves[pos[f]]);
        }
        assert forall|i: int| 0 <= i < positive_count(as_nats(counts)) - 1 implies #[trigger] self.is_fork(
            i,
        ) by {
            assert(t[i] is Two);
        }
    }

    /// Node `i` is the leaf of entrant `e`, which holds `c` tickets there.
    pub closed spec fn is_leaf_of(&self, i: int, e: int, c: nat) -> bool {
        &&& 0 <= i < self.binary_tree@.len()
        &&& self.binary_tree@[i] is Leaf
        &&& self.binary_tree@[i]->entrant == e
        &&& self.binary_tree@[i]->ticket_count == c
    }

    /// Node `i` is a fork that records the tickets held below it.
    pub closed spec fn is_fork(&self, i: int) -> bool {
        &&& 0 <= i < self.binary_tree@.len()
        &&& self.binary_tree@[i] is Two
        &&& self.binary_tree@[i]->total_tickets_of_subtree == tickets(self.binary_tree@, i)
    }

    /// The tickets held below node `i`.
    pub closed spec fn subtree_tickets(&self, i: int) -> nat {
        tickets(self.binary_tree@, i)
    }

    /// One step of the walk from the fork `idx` with the random value `g`,
    /// drawn below the fork's tickets: the walk goes left when `g` is below
    /// the tickets of the left subtree, else right.
    pub fn choose_child(&self, idx: usize, g: usize) -> (next: usize)
        requires
            self.wf(),
            self.is_fork(idx as int),
            g < self.subtree_tickets(idx as int),
        ensures
            next == if g < self.subtree_tickets(2 * idx + 1) {
                2 * idx + 1
            } else {
                2 * idx + 2
            },
            self.subtree_tickets(next as int) > 0,
    {
        let ghost t = self.binary_tree@;
        // the tree fits in memory, so both children's indices fit in a `usize`
        let _len = self.binary_tree.len();
        proof {
            assert(node_ok(t, idx as int));
            assert(tree_ok(t));
            assert(is_internal(t.len() as int, idx as int));
        }
        let left = Self::left(idx);
        let left_ticket_count = self.get_key_count_at_idx(left);
        // We're relying on the tree invariant that a `BinaryTreeNode::Two` node
        // contains the total sum of tickets of both of its children.
        //
        // Say left has L tickets, right has R tickets, we know `total_tickets_of_subtree` is just (L+R),
        // then a fair choice is simply generate a random number G (uniformly) between 0 and (L+R),
        // and if G less than L, we choose the left subset,
        // otherwise we choose the right subset.
        if g < left_ticket_count {
            left
        } else {
            Self::right(idx)
        }
    }

    /// Settles the offer of the next prize to the entrant of the drawn leaf
    /// `idx`, which took it when `accepted`: then the prize is handed out and
    /// the entrant gives up one ticket; else the entrant leaves the draw with
    /// all its tickets and the prize stays next.
    pub fn settle<'p>(&mut self, idx: usize, accepted: bool, prizes: &mut PrizeQueue<'p>) -> (drawn: bool)
        requires
            old(self).wf(),
            old(self).drawn_leaf(idx as int),
            old(prizes).wf(),
            old(prizes).position() < old(prizes).units().len(),
        ensures
            final(self).wf(),
            final(self).num_entrants() == old(self).num_entrants(),
            final(self).node_count() == old(self).node_count(),
            final(prizes).wf(),
            final(prizes).units() == old(prizes).units(),
            drawn == accepted,
            final(self).last_walk() == old(self).last_walk(),
            forall|e: int| #[trigger] final(self).leaf_of(e) == old(self).leaf_of(e),
            old(self).leaf_of(old(self).leaf_entrant(idx as int)) == idx,
            old(self).leaf_tickets()[idx as int] > 0,
            accepted ==> final(self).leaf_tickets() == old(self).leaf_tickets().update(
                idx as int,
                (old(self).leaf_tickets()[idx as int] - 1) as nat,
            ),
            0 <= old(self).leaf_entrant(idx as int) < old(self).num_entrants(),
            old(self).remaining()[old(self).leaf_entrant(idx as int)] > 0,
            accepted ==> {
                &&& final(prizes).position() == old(prizes).position() + 1
                &&& final(self).remaining() == old(self).remaining().update(
                    old(self).leaf_entrant(idx as int),
                    (old(self).remaining()[old(self).leaf_entrant(idx as int)] - 1) as nat,
                )
                &&& final(self).total() + 1 == old(self).total()
            },
            !accepted ==> {
                &&& *final(prizes) == *old(prizes)
                &&& final(self).remaining() == old(self).remaining().update(
                    old(self).leaf_entrant(idx as int),
                    0nat,
                )
                &&& final(self).total() + old(self).remaining()[old(self).leaf_entrant(idx as int)]
                    == old(self).total()
            },
            idx == 0 ==> old(self).total() == old(self).remaining()[old(self).leaf_entrant(idx as int)],
    {
        let ticket_count = match &self.binary_tree[idx] {
            BinaryTreeNode::Leaf { ticket_count, .. } => *ticket_count,
            _ => {
                proof {
                    assert(false);
                }
                0
            },
        };
        if accepted {
            // only advance the iterator if we're sure the entrant takes it just fine
            prizes.advance();
            self.decrease_tickets_count(idx, 1);
            true
        } else {
            // Assuming `Entrant::add_prize` is monotone,
            // in the sense once returned `false` it's always `false`,
            // we may delete this entrant from the tree.
            //
            // Do _not_ advance the iterator else we'll lose some prizes
            self.decrease_tickets_count(idx, ticket_count);
            false
        }
    }

    /// Each node is either one entrant or a set of entrants, as determined by `BinaryTreeNode`.
    /// A lucky entrant is drawn as [`SpaceEfficientShuffler::draw_leaf`] describes.
    ///
    /// Note it might be the case some entrant might not admit any more prizes,
    /// in which case we should retry from root.
    ///
    /// `entrants` is the list the shuffler was built from.
    ///
    /// Return:
    /// `false` if no more lottery can be drawn, either because of no remaining entrants or no remaining prizes;
    /// `true` if successfully picked the lucky entrant.
    pub fn try_draw_one<'p, E: Entrant<'p>, R: Rng + ?Sized>(
        &mut self,
        entrants: &mut Vec<E>,
        rng: &mut R,
        prizes: &mut PrizeQueue<'p>,
    ) -> (drawn: bool)
        requires
            old(self).wf(),
            old(self).num_entrants() == old(entrants).len(),
            old(prizes).wf(),
        ensures
            final(self).wf(),
            final(self).num_entrants() == old(self).num_entrants(),
            final(self).node_count() == old(self).node_count(),
            forall|e: int| #[trigger] final(self).leaf_of(e) == old(self).leaf_of(e),
            final(entrants).len() == old(entrants).len(),
            final(prizes).wf(),
            final(prizes).units() == old(prizes).units(),
            draw_outcome(
                drawn,
                old(self).remaining(),
                final(self).remaining(),
                old(self).total(),
                final(self).total(),
                old(prizes).position(),
                final(prizes).position(),
                old(prizes).units().len(),
            ),
            old(prizes).position() < old(prizes).units().len() ==> answered(
                drawn,
                old(self).remaining(),
                final(self).remaining(),
                old(entrants)@,
                final(entrants)@,
                old(prizes).unit_refs()[old(prizes).position()],
            ),
            drawn ==> exists|w: int|
                #[trigger] won_by(
                    w,
                    old(self).remaining(),
                    final(self).remaining(),
                    old(entrants)@,
                    final(entrants)@,
                    old(prizes).unit_refs()[old(prizes).position()],
                ) && walked_to_winner(*final(self), w),
            forall|e: int|
                0 <= e < old(self).num_entrants() && #[trigger] final(self).remaining()[e]
                    == old(self).remaining()[e] ==> final(entrants)@[e] == old(entrants)@[e],
    {
        // if no prizes, just bail out with error
        // remember to advance the iterator if some lucky entrant were found
        let prize = match prizes.peek() {
            Some(p) => p,
            None => {
                return false;
            },
        };
        // if no entrants/tickets, again bail out with error
        if self.binary_tree.len() == 0 {
            proof {
                self.lemma_total();
            }
            return false;
        }
        let ghost rem0 = self.remaining();
        let ghost total0 = self.total();
        let ghost ents0 = entrants@;
        let ghost prizes0 = *prizes;
        let ghost unit = prizes0.unit_refs()[prizes0.position()];
        loop
            invariant
                self.wf(),
                self.binary_tree@.len() > 0,
                self.num_entrants() == ents0.len(),
                self.num_entrants() == old(self).num_entrants(),
                self.slot_of == old(self).slot_of,
                self.binary_tree@.len() == old(self).binary_tree@.len(),
                ents0 == old(entrants)@,
                rem0 == old(self).remaining(),
                total0 == old(self).total(),
                entrants@.len() == ents0.len(),
                self.remaining().len() == rem0.len(),
                rem0.len() == ents0.len(),
                self.total() <= total0,
                forall|e: int| 0 <= e < rem0.len() ==> kept_or_dropped(rem0, self.remaining(), e),
                entrants@ == ents0,
                forall|e: int|
                    0 <= e < rem0.len() && #[trigger] self.remaining()[e] != rem0[e] ==> refuses_all(
                        ents0[e],
                    ),
                *prizes == prizes0,
                prizes0 == *old(prizes),
                prizes0.wf(),
                0 <= prizes0.position() < prizes0.units().len(),
                prize == unit,
                unit == prizes0.unit_refs()[prizes0.position()],
            decreases self.total(),
        {
            let idx = match self.draw_leaf(rng) {
                Some(idx) => idx,
                None => {
                    proof {
                        self.lemma_total();
                    }
                    return false;
                },
            };
            let ghost rem_b = self.remaining();
            let ghost lv_b = self.leaf_tickets();
            let ghost ents_b = entrants@;
            let lucky = match &self.binary_tree[idx] {
                BinaryTreeNode::Leaf { entrant, .. } => *entrant,
                _ => {
                    proof {
                        assert(false);
                    }
                    0
                },
            };
            proof {
                assert(kept_or_dropped(rem0, rem_b, lucky as int));
                assert(rem_b[lucky as int] == rem0[lucky as int]);
            }
            proof {
                assert(entrants@[lucky as int] == ents0[lucky as int]);
            }
            let accepted = entrants[lucky].add_prize(prize);
            proof {
                assert(accepted == ents0[lucky as int].accepts_spec(unit));
            }
            let ghost pre_settle = *self;
            let settled = self.settle(idx, accepted, prizes);
            proof {
                assert forall|i: int| 0 <= i < self.slot_of@.len() implies self.slot_of@[i] == pre_settle.slot_of@[i] by {
                    assert(self.leaf_of(i) == pre_settle.leaf_of(i));
                }
                assert(self.slot_of@ =~= pre_settle.slot_of@);
            }
            if settled {
                proof {
                    assert forall|e: int| 0 <= e < rem0.len() && e != lucky implies kept_or_dropped(
                        rem0,
                        self.remaining(),
                        e,
                    ) by {
                        assert(kept_or_dropped(rem0, rem_b, e));
                    }
                    assert(one_drawn(rem0, self.remaining(), lucky as int));
                    assert forall|e: int|
                        0 <= e < rem0.len() && e != lucky && self.remaining()[e] != rem0[e] implies refuses_all(
                        ents0[e],
                    ) by {
                        assert(rem_b[e] == self.remaining()[e]);
                    }
                    assert(won_by(lucky as int, rem0, self.remaining(), ents0, entrants@, unit));
                    assert(answered(true, rem0, self.remaining(), ents0, entrants@, unit));
                    assert(self.leaf_tickets().update(idx as int, self.leaf_tickets()[idx as int] + 1) =~= lv_b);
                    assert(walked_to_winner(*self, lucky as int));
                }
                return true;
            }
            proof {
                assert forall|e: int| 0 <= e < rem0.len() implies kept_or_dropped(
                    rem0,
                    self.remaining(),
                    e,
                ) by {
                    assert(kept_or_dropped(rem0, rem_b, e));
                }
                assert forall|e: int|
                    0 <= e < rem0.len() && #[trigger] self.remaining()[e] != rem0[e] implies refuses_all(
                    ents0[e],
                ) by {
                    if e != lucky {
                        assert(rem_b[e] == self.remaining()[e]);
                    }
                }
                assert(entrants@ =~= ents0);
            }
            // restart from root all over again,
            // for all the probabilities based on which we chose
            // this exact path traversing down the tree are wrong.
        }
    }

    /// [`SpaceEfficientShuffler::try_draw_one`] for a draw among users of
    /// [`crate::tickets::Tickets`]; `users` is the list the shuffler was built from.
    ///
    /// Return:
    /// `false` if no more lottery can be drawn, either because of no remaining entrants or no remaining prizes;
    /// `true` if successfully picked the lucky entrant.
    pub fn try_draw_one_user<'p, U: User<'p>, R: Rng + ?Sized>(
        &mut self,
        users: &mut Vec<U>,
        rng: &mut R,
        prizes: &mut PrizeQueue<'p>,
    ) -> (drawn: bool)
        requires
            old(self).wf(),
            old(self).num_entrants() == old(users).len(),
            old(prizes).wf(),
        ensures
            final(self).wf(),
            final(self).num_entrants() == old(self).num_entrants(),
            final(self).node_count() == old(self).node_count(),
            forall|e: int| #[trigger] final(self).leaf_of(e) == old(self).leaf_of(e),
            final(users).len() == old(users).len(),
            final(prizes).wf(),
            final(prizes).units() == old(prizes).units(),
            draw_outcome(
                drawn,
                old(self).remaining(),
                final(self).remaining(),
                old(self).total(),
                final(self).total(),
                old(prizes).position(),
                final(prizes).position(),
                old(prizes).units().len(),
            ),
            old(prizes).position() < old(prizes).units().len() ==> user_answered(
                drawn,
                old(self).remaining(),
                final(self).remaining(),
                old(users)@,
                final(users)@,
                old(prizes).unit_refs()[old(prizes).position()],
            ),
            drawn ==> exists|w: int|
                #[trigger] user_won_by(
                    w,
                    old(self).remaining(),
                    final(self).remaining(),
                    old(users)@,
                    final(users)@,
                    old(prizes).unit_refs()[old(prizes).position()],
                ) && walked_to_winner(*final(self), w),
            forall|e: int|
                0 <= e < old(self).num_entrants() && #[trigger] final(self).remaining()[e]
                    == old(self).remaining()[e] ==> final(users)@[e] == old(users)@[e],
    {
        // if no prizes, just bail out with error
        // remember to advance the iterator if some lucky entrant were found
        let prize = match prizes.peek() {
            Some(p) => p,
            None => {
                return false;
            },
        };
        // if no entrants/tickets, again bail out with error
        if self.binary_tree.len() == 0 {
            proof {
                self.lemma_total();
            }
            return false;
        }
        let ghost rem0 = self.remaining();
        let ghost total0 = self.total();
        let ghost ents0 = users@;
        let ghost prizes0 = *prizes;
        let ghost unit = prizes0.unit_refs()[prizes0.position()];
        loop
            invariant
                self.wf(),
                self.binary_tree@.len() > 0,
                self.num_entrants() == ents0.len(),
                self.num_entrants() == old(self).num_entrants(),
                self.slot_of == old(self).slot_of,
                self.binary_tree@.len() == old(self).binary_tree@.len(),
                ents0 == old(users)@,
                rem0 == old(self).remaining(),
                total0 == old(self).total(),
                users@.len() == ents0.len(),
                self.remaining().len() == rem0.len(),
                rem0.len() == ents0.len(),
                self.total() <= total0,
                forall|e: int| 0 <= e < rem0.len() ==> kept_or_dropped(rem0, self.remaining(), e),
                users@ == ents0,
                forall|e: int|
                    0 <= e < rem0.len() && #[trigger] self.remaining()[e] != rem0[e] ==> user_refuses_all(
                        ents0[e],
                    ),
                *prizes == prizes0,
                prizes0 == *old(prizes),
                prizes0.wf(),
                0 <= prizes0.position() < prizes0.units().len(),
                prize == unit,
                unit == prizes0.unit_refs()[prizes0.position()],
            decreases self.total(),
        {
            let idx = match self.draw_leaf(rng) {
                Some(idx) => idx,
                None => {
                    proof {
                        self.lemma_total();
                    }
                    return false;
                },
            };
            let ghost rem_b = self.remaining();
            let ghost lv_b = self.leaf_tickets();
            let ghost ents_b = users@;
            let lucky = match &self.binary_tree[idx] {
                BinaryTreeNode::Leaf { entrant, .. } => *entrant,
                _ => {
                    proof {
                        assert(false);
                    }
                    0
                },
            };
            proof {
                assert(kept_or_dropped(rem0, rem_b, lucky as int));
                assert(rem_b[lucky as int] == rem0[lucky as int]);
            }
            proof {
                assert(users@[lucky as int] == ents0[lucky as int]);
            }
            let accepted = users[lucky].add_prize(prize);
            proof {
                assert(accepted == ents0[lucky as int].accepts_spec(unit));
            }
            let ghost pre_settle = *self;
            let settled = self.settle(idx, accepted, prizes);
            proof {
                assert forall|i: int| 0 <= i < self.slot_of@.len() implies self.slot_of@[i] == pre_settle.slot_of@[i] by {
                    assert(self.leaf_of(i) == pre_settle.leaf_of(i));
                }
                assert(self.slot_of@ =~= pre_settle.slot_of@);
            }
            if settled {
                proof {
                    assert forall|e: int| 0 <= e < rem0.len() && e != lucky implies kept_or_dropped(
                        rem0,
                        self.remaining(),
                        e,
                    ) by {
                        assert(kept_or_dropped(rem0, rem_b, e));
                    }
                    assert(one_drawn(rem0, self.remaining(), lucky as int));
                    assert forall|e: int|
                        0 <= e < rem0.len() && e != lucky && self.remaining()[e] != rem0[e] implies user_refuses_all(
                        ents0[e],
                    ) by {
                        assert(rem_b[e] == self.remaining()[e]);
                    }
                    assert(user_won_by(lucky as int, rem0, self.remaining(), ents0, users@, unit));
                    assert(user_answered(true, rem0, self.remaining(), ents0, users@, unit));
                    assert(self.leaf_tickets().update(idx as int, self.leaf_tickets()[idx as int] + 1) =~= lv_b);
                    assert(walked_to_winner(*self, lucky as int));
                }
                return true;
            }
            proof {
                assert forall|e: int| 0 <= e < rem0.len() implies kept_or_dropped(
                    rem0,
                    self.remaining(),
                    e,
                ) by {
                    assert(kept_or_dropped(rem0, rem_b, e));
                }
                assert forall|e: int|
                    0 <= e < rem0.len() && #[trigger] self.remaining()[e] != rem0[e] implies user_refuses_all(
                    ents0[e],
                ) by {
                    if e != lucky {
                        assert(rem_b[e] == self.remaining()[e]);
                    }
                }
                assert(users@ =~= ents0);
            }
            // restart from root all over again,
            // for all the probabilities based on which we chose
            // this exact path traversing down the tree are wrong.
        }
    }

    /// The number of nodes of the tree: one leaf per entrant with tickets and
    /// one less internal nodes, when it was built.
    pub fn num_nodes(&self) -> (r: usize)
        ensures
            r == self.node_count(),
    {
        self.binary_tree.len()
    }

    /// The tickets held below a node, following the `One` shortcuts.
    fn get_key_count_at_idx(&self, start: usize) -> (count: usize)
        requires
            self.wf(),
            0 < start < self.binary_tree@.len(),
            tickets(self.binary_tree@, start as int) > 0,
        ensures
            count == tickets(self.binary_tree@, start as int),
    {
        let ghost t = self.binary_tree@;
        let mut idx = start;
        let ghost target = tickets(t, idx as int);
        loop
            invariant
                self.wf(),
                t == self.binary_tree@,
                0 < idx < t.len(),
                tickets(t, idx as int) == target,
                target == tickets(t, start as int),
                target > 0,
            decreases t.len() - idx,
        {
            proof {
                assert(node_ok(t, idx as int));
                if !is_internal(t.len() as int, idx as int) {
                    assert(tickets(t, idx as int) == leaf_values(t)[idx as int]);
                }
            }
            match &self.binary_tree[idx] {
                BinaryTreeNode::Two { total_tickets_of_subtree: sum } => {
                    assert(is_internal(t.len() as int, idx as int));
                    assert(*sum == tickets(t, idx as int));
                    return *sum;
                },
                BinaryTreeNode::One { descendant_idx } => {
                    idx = *descendant_idx;
                },
                BinaryTreeNode::Vacant => {
                    proof {
                        assert(false);
                    }
                    return 0;
                },
                BinaryTreeNode::Leaf { ticket_count, .. } => {
                    return *ticket_count;
                },
            }
        }
    }
}

/// What one call of [`RandomPicker::draw_one`] does, given the tickets each
/// user has left before and after it, the totals, and the prize queue's
/// position before and after among `units` items.
pub open spec fn pick_outcome(
    r: Result<Option<usize>, ()>,
    before: Seq<nat>,
    after: Seq<nat>,
    total_before: nat,
    total_after: nat,
    pos_before: int,
    pos_after: int,
    units: nat,
) -> bool {
    &&& after.len() == before.len()
    &&& match r {
        Ok(Some(w)) => {
            &&& pos_after == pos_before + 1
            &&& one_drawn(before, after, w as int)
            &&& total_after + 1 == total_before
        },
        Ok(None) => {
            &&& pos_after == pos_before
            &&& pos_before < units
            &&& exists|e: int|
                0 <= e < before.len() && before[e] > 0 && after == before.update(e, 0nat)
            &&& total_after < total_before
        },
        Err(()) => {
            &&& pos_after == pos_before
            &&& (pos_before >= units || total_before == 0) ==> after == before
            &&& (pos_before < units && total_before > 0) ==> {
                &&& total_after == 0
                &&& exists|e: int|
                    0 <= e < before.len() && before[e] > 0 && after == before.update(e, 0nat)
            }
        },
    }
}

/// A step-by-step draw among the users of a [`crate::tickets::Tickets`],
/// over the tree of [`SpaceEfficientShuffler`]: each call of
/// [`RandomPicker::draw_one`] walks down the tree once, and either hands the
/// next prize to the user it finds or drops that user from the draw.
pub struct RandomPicker {
    tree: SpaceEfficientShuffler,
}

impl RandomPicker {
    /// The number of users of the list the picker was built from.
    pub closed spec fn num_entrants(&self) -> nat {
        self.tree.num_entrants()
    }

    /// The tickets each user has left in the draw.
    pub closed spec fn remaining(&self) -> Seq<nat> {
        self.tree.remaining()
    }

    /// All the tickets left in the draw.
    pub closed spec fn total(&self) -> nat {
        self.tree.total()
    }

    pub closed spec fn wf(&self) -> bool {
        self.tree.wf()
    }

    /// The tree of ticket counts the picker walks.
    pub closed spec fn shuffler(&self) -> SpaceEfficientShuffler {
        self.tree
    }

    /// The tickets left in the draw are the sum of what each user has left.
    pub proof fn lemma_total(&self)
        requires
            self.wf(),
        ensures
            self.total() == seq_sum(self.remaining()),
            self.remaining().len() == self.num_entrants(),
    {
        self.tree.lemma_total();
    }

    /// Make the tree a _complete binary tree_ over the users' ticket counts,
    /// asking each user once, in which all internal nodes are
    /// `BinaryTreeNode::Two`, and all leaf nodes are `BinaryTreeNode::Leaf`;
    /// `None` when the tickets add up to more than `usize::MAX`.
    pub fn new<'p, U: User<'p>>(users: &Vec<U>) -> (r: Option<Self>)
        ensures
            users.len() <= 1 ==> r is Some,
            r is Some <==> seq_sum(reported_user_tickets(users@)) <= usize::MAX,
            r matches Some(p) ==> {
                &&& p.wf()
                &&& p.num_entrants() == users.len()
                &&& p.remaining() == reported_user_tickets(users@)
                &&& laid_out(p.shuffler(), reported_user_tickets(users@))
            },
    {
        match SpaceEfficientShuffler::from_users(users) {
            Some(tree) => Some(RandomPicker { tree }),
            None => None,
        }
    }

    /// Each node is either one user or a set of users, as determined by `BinaryTreeNode`.
    ///
    /// Drawing a lucky user is done via traversing down the tree via sequence of binary questions,
    /// based on left/right tickets count,
    /// till a node that is exactly one user is found
    /// (see [`SpaceEfficientShuffler::try_draw_one`] for the `BinaryTreeNode::One` shortcuts).
    ///
    /// Note it might be the case some user might not admit any more prizes,
    /// or holds no ticket any more, in which case it leaves the draw and we
    /// should retry from root.
    ///
    /// `users` is the list the picker was built from.
    ///
    /// Return:
    /// `Err` if no more lottery either because no users or no prizes,
    /// `Ok(Some(..))` (the user's position in the list) if successfully picked the lucky user,
    /// `Ok(None)` if spurious fail and we shall try again.
    pub fn draw_one<'p, U: User<'p>, R: Rng + ?Sized>(
        &mut self,
        users: &mut Vec<U>,
        rng: &mut R,
        prizes: &mut PrizeQueue<'p>,
    ) -> (r: Result<Option<usize>, ()>)
        requires
            old(self).wf(),
            old(self).num_entrants() == old(users).len(),
            old(prizes).wf(),
        ensures
            final(self).wf(),
            final(self).num_entrants() == old(self).num_entrants(),
            final(self).shuffler().node_count() == old(self).shuffler().node_count(),
            forall|e: int| #[trigger] final(self).shuffler().leaf_of(e) == old(self).shuffler().leaf_of(e),
            final(users).len() == old(users).len(),
            final(prizes).wf(),
            final(prizes).units() == old(prizes).units(),
            pick_outcome(
                r,
                old(self).remaining(),
                final(self).remaining(),
                old(self).total(),
                final(self).total(),
                old(prizes).position(),
                final(prizes).position(),
                old(prizes).units().len(),
            ),
            old(prizes).position() < old(prizes).units().len() ==> {
                &&& !(r matches Ok(Some(_))) ==> final(users)@ == old(users)@
                &&& !(r matches Ok(Some(_))) ==> forall|e: int|
                    0 <= e < old(self).num_entrants() && #[trigger] final(self).remaining()[e]
                        != old(self).remaining()[e] ==> old(users)@[e].tickets_spec() == 0
                        || user_refuses_all(old(users)@[e])
                &&& r matches Ok(Some(w)) ==> user_won_by(
                    w as int,
                    old(self).remaining(),
                    final(self).remaining(),
                    old(users)@,
                    final(users)@,
                    old(prizes).unit_refs()[old(prizes).position()],
                )
            },
            r matches Ok(Some(w)) ==> walked_to_winner(final(self).shuffler(), w as int),
            forall|e: int|
                0 <= e < old(self).num_entrants() && #[trigger] final(self).remaining()[e]
                    == old(self).remaining()[e] ==> final(users)@[e] == old(users)@[e],
    {
        proof {
            self.tree.lemma_total();
            prizes.lemma_position_bound();
        }
        // if no prizes, just bail out with error
        let prize = match prizes.peek() {
            Some(p) => p,
            None => {
                return Err(());
            },
        };
        if self.tree.binary_tree.len() == 0 {
            return Err(());
        }
        let ghost rem0 = self.tree.remaining();
        let ghost users0 = users@;
        let ghost unit = prizes.unit_refs()[prizes.position()];
        let idx = match self.tree.draw_leaf(rng) {
            Some(idx) => idx,
            None => {
                return Err(());
            },
        };
        let ghost lv_b = self.tree.leaf_tickets();
        let lucky = match &self.tree.binary_tree[idx] {
            BinaryTreeNode::Leaf { entrant, .. } => *entrant,
            _ => {
                proof {
                    assert(false);
                }
                0
            },
        };
        // only advance the iterator if we're sure `impl User` takes it just fine;
        // else we may delete this user from the tree (see `SpaceEfficientShuffler::settle`)
        let accepted = if users[lucky].ticket_count() > 0 {
            users[lucky].add_prize(prize)
        } else {
            false
        };
        if self.tree.settle(idx, accepted, prizes) {
            proof {
                assert(one_drawn(rem0, self.tree.remaining(), lucky as int));
                assert(user_won_by(lucky as int, rem0, self.tree.remaining(), users0, users@, unit));
                assert(self.tree.leaf_tickets().update(idx as int, self.tree.leaf_tickets()[idx as int] + 1)
                    =~= lv_b);
                assert(walked_to_winner(self.tree, lucky as int));
            }
            Ok(Some(lucky))
        } else {
            proof {
                assert(self.tree.remaining() == rem0.update(lucky as int, 0nat));
                assert(users@ =~= users0);
            }
            if idx == 0 {
                // the index is just zero, meaning the leaf is also root,
                // no more users available, just return error
                Err(())
            } else {
                Ok(None)
            }
        }
    }
}

} // verus!
