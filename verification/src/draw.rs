//! The draws shared by [`crate::lottery::Lottery`] and
//! [`crate::tickets::Tickets`]: the participants are taken out of their map
//! into a list, and the prize items are handed out among them by a tree of
//! ticket counts or by shuffled ticket slots.
use std::collections::HashSet;

use rand::Rng;

use crate::entrant::Entrant;
use crate::keyed_map::pulled_from;
use crate::prize::Prize;
use crate::prize_queue::{expand, refs_of, PrizeQueue};
use crate::random::{shuffle_slots, Draw, ShuffledSlots};
use crate::heap_tree::{lemma_seq_sum_le, seq_sum};
use crate::space_efficient_shuffler::{
    as_nats, kept_or_dropped, laid_out_tickets, lemma_wins_within_step, one_drawn, refuses_all,
    tree_leaf, tree_size, user_refuses_all, walk_to, walked_to_winner,
    user_won_by, wins_within, won_by,
    SpaceEfficientShuffler,
};
use crate::tally::{
    lemma_occurrences_contains, lemma_occurrences_prefix, lemma_occurrences_push,
    lemma_occurrences_rename, lemma_occurrences_take_step,
    lemma_places_len, lemma_tally_sum, lemma_tally_usize_sum, occurrences, places, tally, tally_usize,
};
use crate::user::User;
use vstd::prelude::*;

verus! {

broadcast use vstd::std_specs::hash::group_hash_axioms;

/// A hand-out of the prize items in priority order to `won` (item `i` of
/// the prizes, each repeated by its count, to `won[i]`) from the entrants
/// `before`, which reported the ticket counts `tickets`: no more items than
/// the prizes hold, only to entrants, and to none more items than its
/// tickets.
pub open spec fn awards_from<K, E>(
    before: Map<K, E>,
    tickets: Map<K, nat>,
    prizes: Seq<Prize>,
    won: Seq<K>,
) -> bool {
    &&& won.len() <= expand(prizes).len()
    &&& forall|i: int| 0 <= i < won.len() ==> before.contains_key(#[trigger] won[i])
    &&& tickets.dom() == before.dom()
    &&& forall|k: K| #[trigger] before.contains_key(k) ==> occurrences(won, k) <= tickets[k]
}

/// The items of `units` handed to `k`, in order, where `won[i]` took item
/// `i`.
pub open spec fn awarded_to<K, T>(won: Seq<K>, k: K, units: Seq<T>) -> Seq<T>
    decreases won.len(),
{
    if won.len() == 0 {
        Seq::empty()
    } else if won.last() == k {
        awarded_to(won.drop_last(), k, units).push(units[won.len() - 1])
    } else {
        awarded_to(won.drop_last(), k, units)
    }
}

proof fn lemma_awarded_push<K, T>(won: Seq<K>, k: K, units: Seq<T>, w: K)
    ensures
        awarded_to(won.push(w), k, units) == if w == k {
            awarded_to(won, k, units).push(units[won.len() as int])
        } else {
            awarded_to(won, k, units)
        },
{
    assert(won.push(w).drop_last() =~= won);
}

/// Renaming positions by distinct keys keeps what each one was handed.
pub proof fn lemma_awarded_rename<K, T>(won: Seq<int>, keys: Seq<K>, units: Seq<T>, p: int)
    requires
        forall|i: int| 0 <= i < won.len() ==> 0 <= #[trigger] won[i] < keys.len(),
        forall|a: int, b: int|
            0 <= a < keys.len() && 0 <= b < keys.len() && #[trigger] keys[a] == #[trigger] keys[b]
                ==> a == b,
        0 <= p < keys.len(),
    ensures
        awarded_to(won.map_values(|q: int| keys[q]), keys[p], units) == awarded_to(won, p, units),
    decreases won.len(),
{
    if won.len() > 0 {
        lemma_awarded_rename(won.drop_last(), keys, units, p);
        assert(won.map_values(|q: int| keys[q]).drop_last() =~= won.drop_last().map_values(
            |q: int| keys[q],
        ));
    }
}

/// The states `chain` that the entrant goes through as it is offered the
/// prizes `us` in turn and takes each of them.
pub open spec fn takes_in_turn<'a, E: Entrant<'a>>(chain: Seq<E>, us: Seq<&'a Prize>) -> bool {
    &&& chain.len() == us.len() + 1
    &&& forall|i: int|
        0 <= i < us.len() ==> #[trigger] chain[i].accepts_spec(us[i]) && chain[i].takes_to(
            us[i],
            chain[i + 1],
        )
}

/// The entrant `e0` becomes `e1` by being offered the prizes `us` in turn
/// and taking each of them.
pub open spec fn reaches<'a, E: Entrant<'a>>(e0: E, us: Seq<&'a Prize>, e1: E) -> bool {
    exists|chain: Seq<E>|
        #[trigger] takes_in_turn(chain, us) && chain[0] == e0 && chain.last() == e1
}

/// Taking one more prize extends [`reaches`].
pub proof fn lemma_reaches_step<'a, E: Entrant<'a>>(e0: E, us: Seq<&'a Prize>, m: E, u: &'a Prize, e1: E)
    requires
        reaches(e0, us, m),
        m.accepts_spec(u),
        m.takes_to(u, e1),
    ensures
        reaches(e0, us.push(u), e1),
{
    let chain = choose|chain: Seq<E>| #[trigger] takes_in_turn(chain, us) && chain[0] == e0 && chain.last() == m;
    let c2 = chain.push(e1);
    assert(takes_in_turn(c2, us.push(u))) by {
        assert forall|i: int| 0 <= i < us.push(u).len() implies #[trigger] c2[i].accepts_spec(us.push(u)[i])
            && c2[i].takes_to(us.push(u)[i], c2[i + 1]) by {
            if i < us.len() {
                assert(chain[i].accepts_spec(us[i]));
            }
        }
    }
    assert(c2[0] == e0 && c2.last() == e1);
}

/// Nothing taken: the entrant stays as it is.
pub proof fn lemma_reaches_none<'a, E: Entrant<'a>>(e0: E)
    ensures
        reaches(e0, Seq::<&'a Prize>::empty(), e0),
{
    let chain = seq![e0];
    assert(takes_in_turn(chain, Seq::<&'a Prize>::empty()));
}

/// The states `chain` that the user goes through as it is offered the
/// prizes `us` in turn and takes each of them.
pub open spec fn user_takes_in_turn<'a, U: User<'a>>(chain: Seq<U>, us: Seq<&'a Prize>) -> bool {
    &&& chain.len() == us.len() + 1
    &&& forall|i: int|
        0 <= i < us.len() ==> #[trigger] chain[i].accepts_spec(us[i]) && chain[i].takes_to(
            us[i],
            chain[i + 1],
        )
}

/// The user `e0` becomes `e1` by being offered the prizes `us` in turn
/// and taking each of them.
pub open spec fn user_reaches<'a, U: User<'a>>(e0: U, us: Seq<&'a Prize>, e1: U) -> bool {
    exists|chain: Seq<U>|
        #[trigger] user_takes_in_turn(chain, us) && chain[0] == e0 && chain.last() == e1
}

/// Taking one more prize extends [`user_reaches`].
pub proof fn lemma_user_reaches_step<'a, U: User<'a>>(e0: U, us: Seq<&'a Prize>, m: U, u: &'a Prize, e1: U)
    requires
        user_reaches(e0, us, m),
        m.accepts_spec(u),
        m.takes_to(u, e1),
    ensures
        user_reaches(e0, us.push(u), e1),
{
    let chain = choose|chain: Seq<U>| #[trigger] user_takes_in_turn(chain, us) && chain[0] == e0 && chain.last() == m;
    let c2 = chain.push(e1);
    assert(user_takes_in_turn(c2, us.push(u))) by {
        assert forall|i: int| 0 <= i < us.push(u).len() implies #[trigger] c2[i].accepts_spec(us.push(u)[i])
            && c2[i].takes_to(us.push(u)[i], c2[i + 1]) by {
            if i < us.len() {
                assert(chain[i].accepts_spec(us[i]));
            }
        }
    }
    assert(c2[0] == e0 && c2.last() == e1);
}

/// Nothing taken: the user stays as it is.
pub proof fn lemma_user_reaches_none<'a, U: User<'a>>(e0: U)
    ensures
        user_reaches(e0, Seq::<&'a Prize>::empty(), e0),
{
    let chain = seq![e0];
    assert(user_takes_in_turn(chain, Seq::<&'a Prize>::empty()));
}

/// The ticket count of each key, from parallel lists of distinct keys and
/// counts.
pub open spec fn tickets_by_key<K>(keys: Seq<K>, counts: Seq<nat>) -> Map<K, nat> {
    Map::new(
        |k: K| exists|i: int| 0 <= i < keys.len() && keys[i] == k,
        |k: K| counts[choose|i: int| 0 <= i < keys.len() && keys[i] == k],
    )
}

/// Where the prize items went in a draw among the entrants of a list that
/// reported the ticket counts `counts`: `won[i]` is the position in the list
/// of the entrant that won item `i` of the prizes, each prize repeated by
/// its count; no more items than the prizes hold, and to no entrant more
/// items than its tickets.
pub open spec fn winner_positions(won: Seq<int>, counts: Seq<nat>, prizes: Seq<Prize>) -> bool {
    &&& won.len() <= expand(prizes).len()
    &&& forall|i: int| 0 <= i < won.len() ==> 0 <= #[trigger] won[i] < counts.len()
    &&& forall|e: int| 0 <= e < counts.len() ==> #[trigger] occurrences(won, e) <= counts[e]
}

/// The draw ended for want of items or of tickets: every item was handed
/// out, or each entrant that stayed in the draw (is not in `dropped`) won
/// exactly the tickets it reported; this when the tickets add up to at most
/// `usize::MAX`.
pub open spec fn ran_out(won: Seq<int>, dropped: Set<int>, counts: Seq<nat>, prizes: Seq<Prize>) -> bool {
    seq_sum(counts) <= usize::MAX ==> {
        ||| won.len() == expand(prizes).len()
        ||| forall|e: int|
            0 <= e < counts.len() && !dropped.contains(e) ==> #[trigger] occurrences(won, e) == counts[e]
    }
}

/// When no entrant left the draw with tickets to spare, the draw handed out
/// as many items as the prizes hold or as the tickets add up to, whichever
/// is fewer.
pub proof fn lemma_handed_out_count(won: Seq<int>, counts: Seq<nat>, prizes: Seq<Prize>)
    requires
        winner_positions(won, counts, prizes),
        ran_out(won, Set::empty(), counts, prizes),
        seq_sum(counts) <= usize::MAX,
    ensures
        won.len() == if expand(prizes).len() <= seq_sum(counts) {
            expand(prizes).len()
        } else {
            seq_sum(counts)
        },
{
    let t = tally(won, counts.len());
    lemma_tally_sum(won, counts.len());
    lemma_seq_sum_le(t, counts);
    if won.len() != expand(prizes).len() {
        assert(t =~= counts);
    }
}

/// The tickets each entrant has left after the items `won` were handed
/// out, when those in `gone` have left the draw.
pub open spec fn left_after(counts: Seq<nat>, won: Seq<int>, gone: Set<int>) -> Seq<nat> {
    Seq::new(
        counts.len(),
        |e: int|
            if gone.contains(e) {
                0nat
            } else {
                (counts[e] - occurrences(won, e)) as nat
            },
    )
}

/// A tree draw over `counts` handed item `i` to `won[i]` by a walk down the
/// tree: the walk `walks[i].1` led to the leaf of `won[i]` over the tickets
/// left at that point, the entrants in `walks[i].0` (all of them among
/// `dropped`) having left the draw by then.
pub open spec fn walked_tree(
    won: Seq<int>,
    dropped: Set<int>,
    walks: Seq<(Set<int>, Seq<(int, Draw)>)>,
    counts: Seq<nat>,
) -> bool {
    &&& walks.len() == won.len()
    &&& forall|i: int|
        #![trigger walks[i]]
        0 <= i < won.len() ==> {
            &&& forall|e: int| #[trigger] walks[i].0.contains(e) ==> dropped.contains(e)
            &&& walk_to(
                laid_out_tickets(counts, left_after(counts, won.take(i), walks[i].0)),
                walks[i].1,
                tree_leaf(counts, won[i]),
            )
        }
}

/// The entrants that left a draw with tickets left: by position, mapped to
/// their keys.
pub open spec fn dropped_keys<K>(keys: Seq<K>, dropped: Set<int>) -> Set<K> {
    Set::new(|k: K| exists|i: int| 0 <= i < keys.len() && dropped.contains(i) && keys[i] == k)
}

/// What each entrant that stayed in a tree draw has won plus what it has
/// left is what it started with; one draw keeps this when the entrants that
/// lost tickets without winning join `dropped`.
proof fn lemma_stayed_step(
    start: Seq<nat>,
    before: Seq<nat>,
    after: Seq<nat>,
    wins: Seq<int>,
    dropped: Set<int>,
    drawn: bool,
    w: int,
    wins2: Seq<int>,
) -> (dropped2: Set<int>)
    requires
        wins2 == if drawn { wins.push(w) } else { wins },
        before.len() == start.len(),
        after.len() == before.len(),
        forall|e: int|
            0 <= e < start.len() && !dropped.contains(e) ==> #[trigger] occurrences(wins, e)
                + before[e] == start[e],
        drawn ==> one_drawn(before, after, w),
        !drawn ==> forall|e: int| 0 <= e < before.len() ==> kept_or_dropped(before, after, e),
    ensures
        forall|e: int| #[trigger] dropped.contains(e) ==> dropped2.contains(e),
        forall|e: int|
            #[trigger] dropped2.contains(e) ==> dropped.contains(e) || (0 <= e < start.len() && (
            !drawn || e != w) && after[e] != before[e]),
        forall|e: int|
            0 <= e < start.len() && !dropped2.contains(e) ==> #[trigger] occurrences(wins2, e)
                + after[e] == start[e],
{
    let dropped2 = dropped.union(
        Set::new(|e: int| 0 <= e < start.len() && (!drawn || e != w) && after[e] != before[e]),
    );
    assert forall|e: int| 0 <= e < start.len() && !dropped2.contains(e) implies #[trigger] occurrences(
        wins2,
        e,
    ) + after[e] == start[e] by {
        lemma_occurrences_push(wins, w, e);
        assert(!dropped.contains(e));
        assert(occurrences(wins, e) + before[e] == start[e]);
    }
    dropped2
}

/// What a draw did among the entrants `before`, which reported the ticket
/// counts `counts` in the order of their distinct keys `keys`: the prize
/// items went to `won` as [`awards_from`] says, and the draw ended for want
/// of items or of tickets: every item was handed out, or each entrant that
/// stayed in the draw (is not in `dropped`) won exactly its tickets; this
/// when the tickets add up to at most `usize::MAX`.
pub open spec fn draw_result<K, E>(
    before: Map<K, E>,
    prizes: Seq<Prize>,
    won: Seq<K>,
    keys: Seq<K>,
    counts: Seq<nat>,
    dropped: Set<K>,
) -> bool {
    &&& keys.len() == counts.len()
    &&& forall|i: int, j: int|
        0 <= i < keys.len() && 0 <= j < keys.len() && #[trigger] keys[i] == #[trigger] keys[j] ==> i == j
    &&& awards_from(before, tickets_by_key(keys, counts), prizes, won)
    &&& seq_sum(counts) <= usize::MAX ==> {
        ||| won.len() == expand(prizes).len()
        ||| forall|k: K|
            #[trigger] before.contains_key(k) && !dropped.contains(k) ==> occurrences(won, k)
                == tickets_by_key(keys, counts)[k]
    }
}

/// Winners by position in the list pulled out of a map are winners by key.
pub proof fn lemma_award<K, E>(
    before: Map<K, E>,
    keys: Seq<K>,
    ents: Seq<E>,
    counts: Seq<nat>,
    prizes: Seq<Prize>,
    won: Seq<int>,
    dropped: Set<int>,
)
    requires
        pulled_from(before, keys, ents),
        counts.len() == keys.len(),
        winner_positions(won, counts, prizes),
        ran_out(won, dropped, counts, prizes),
    ensures
        draw_result(
            before,
            prizes,
            won.map_values(|q: int| keys[q]),
            keys,
            counts,
            dropped_keys(keys, dropped),
        ),
{
    let tickets = tickets_by_key(keys, counts);
    let named = won.map_values(|q: int| keys[q]);
    assert forall|i: int| 0 <= i < named.len() implies before.contains_key(#[trigger] named[i]) by {
        assert(0 <= won[i] < keys.len());
    }
    assert forall|k: K| before.contains_key(k) <==> tickets.dom().contains(k) by {
        if tickets.dom().contains(k) {
            let i = choose|i: int| 0 <= i < keys.len() && keys[i] == k;
            assert(before.contains_key(keys[i]));
        }
    }
    assert(tickets.dom() =~= before.dom());
    assert forall|k: K| #[trigger] before.contains_key(k) implies occurrences(named, k) <= tickets[k] by {
        let i = choose|i: int| 0 <= i < keys.len() && keys[i] == k;
        assert(keys[i] == k);
        lemma_occurrences_rename(won, keys, i);
        assert(occurrences(won, i) <= counts[i]);
    }
    if seq_sum(counts) <= usize::MAX && won.len() != expand(prizes).len() {
        assert forall|k: K| #[trigger] before.contains_key(k) && !dropped_keys(keys, dropped).contains(
            k,
        ) implies occurrences(named, k) == tickets[k] by {
            let i = choose|i: int| 0 <= i < keys.len() && keys[i] == k;
            assert(keys[i] == k);
            assert(!dropped.contains(i));
            lemma_occurrences_rename(won, keys, i);
            assert(occurrences(won, i) == counts[i]);
        }
    }
}

/// Hands out the prize items, the biggest prize first and each prize by its
/// count, drawing each winner from a tree of the entrants' ticket counts
/// `counts`; nothing is handed out when they add up to more than
/// `usize::MAX`. The second part of the result holds the entrants that left
/// the draw with tickets left.
pub(crate) fn draw_by_tree<'p, E: Entrant<'p>, R: Rng + ?Sized>(
    ents: &mut Vec<E>,
    counts: &Vec<usize>,
    prizes: &'p Vec<Prize>,
    rng: &mut R,
) -> (won: Ghost<(Seq<int>, Set<int>, Seq<(Set<int>, Seq<(int, Draw)>)>)>)
    requires
        counts@.len() == old(ents)@.len(),
    ensures
        final(ents)@.len() == old(ents)@.len(),
        walked_tree(won@.0, won@.1, won@.2, as_nats(counts@)),
        winner_positions(won@.0, as_nats(counts@), prizes@),
        ran_out(won@.0, won@.1, as_nats(counts@), prizes@),
        forall|e: int|
            0 <= e < old(ents)@.len() ==> #[trigger] reaches(
                old(ents)@[e],
                awarded_to(won@.0, e, refs_of(expand(prizes@))),
                final(ents)@[e],
            ),
        forall|e: int| #[trigger] won@.1.contains(e) ==> 0 <= e < old(ents)@.len(),
        forall|e: int, q: &'p Prize|
            0 <= e < old(ents)@.len() && won@.1.contains(e) ==> !#[trigger] final(ents)@[e].accepts_spec(q),
{
    let ghost start = as_nats(counts@);
    let ghost n = ents@.len();
    let ghost mut positions: Seq<int> = Seq::empty();
    let ghost mut dropped: Set<int> = Set::empty();
    let ghost mut walks: Seq<(Set<int>, Seq<(int, Draw)>)> = Seq::empty();
    let ghost ents0 = ents@;
    let mut queue = PrizeQueue::by_count(prizes);
    let ghost urefs = queue.unit_refs();
    proof {
        assert forall|e: int| 0 <= e < n implies #[trigger] reaches(
            ents0[e],
            awarded_to(positions, e, urefs),
            ents@[e],
        ) by {
            lemma_reaches_none::<'p, _>(ents0[e]);
        }
    }
    match SpaceEfficientShuffler::try_from_ticket_counts(counts) {
        Some(mut space_efficient_shuffler) => {
            loop
                invariant
                    space_efficient_shuffler.wf(),
                    space_efficient_shuffler.num_entrants() == n,
                    space_efficient_shuffler.node_count() == tree_size(start),
                    forall|e: int|
                        0 <= e < n ==> #[trigger] space_efficient_shuffler.leaf_of(e) == if start[e] > 0 {
                            tree_leaf(start, e)
                        } else {
                            -1
                        },
                    walked_tree(positions, dropped, walks, start),
                    ents@.len() == n,
                    start.len() == n,
                    queue.wf(),
                    queue.units() == expand(prizes@),
                    positions.len() == queue.position(),
                    forall|i: int| 0 <= i < positions.len() ==> 0 <= #[trigger] positions[i] < n,
                    positions.len() <= expand(prizes@).len(),
                    queue.unit_refs() == urefs,
                    forall|e: int|
                        0 <= e < n ==> #[trigger] reaches(
                            ents0[e],
                            awarded_to(positions, e, urefs),
                            ents@[e],
                        ),
                    wins_within(start, space_efficient_shuffler.remaining(), positions),
                    forall|e: int|
                        0 <= e < n && !dropped.contains(e) ==> #[trigger] occurrences(positions, e)
                            + space_efficient_shuffler.remaining()[e] == start[e],
                    forall|e: int|
                        #[trigger] dropped.contains(e) ==> 0 <= e < n && space_efficient_shuffler.remaining()[e] == 0,
                    forall|e: int, q: &'p Prize|
                        0 <= e < n && dropped.contains(e) ==> !#[trigger] ents@[e].accepts_spec(q),
                ensures
                    positions.len() == expand(prizes@).len() || forall|e: int|
                        0 <= e < n && !dropped.contains(e) ==> #[trigger] occurrences(positions, e)
                            == start[e],
                decreases space_efficient_shuffler.total(),
            {
                let ghost rem = space_efficient_shuffler.remaining();
                let ghost pos0 = queue.position();
                proof {
                    space_efficient_shuffler.lemma_total();
                }
                let ghost ents_b = ents@;
                let ghost queue_b = queue;
                let drawn = space_efficient_shuffler.try_draw_one(ents, rng, &mut queue);
                proof {
                    space_efficient_shuffler.lemma_total();
                    queue.lemma_position_bound();
                    let after = space_efficient_shuffler.remaining();
                    let unit = queue_b.unit_refs()[queue_b.position()];
                    let positions0 = positions;
                    let dropped0 = dropped;
                    assert forall|e: int| 0 <= e < n && dropped0.contains(e) implies after[e] == 0
                        && ents@[e] == ents_b[e] by {
                        assert(kept_or_dropped(rem, after, e));
                        assert(after[e] == rem[e]);
                    }
                    let mut w: int = 0;
                    if drawn {
                        w = choose|w: int| #[trigger] won_by(w, rem, after, ents_b, ents@, unit)
                            && walked_to_winner(space_efficient_shuffler, w);
                        lemma_wins_within_step(start, rem, after, positions, true, w);
                        dropped = lemma_stayed_step(start, rem, after, positions, dropped, true, w, positions.push(w));
                        assert(occurrences(positions, w) + rem[w] <= start[w]);
                        space_efficient_shuffler.lemma_walked_laid_out(start, w);
                        let gone = dropped;
                        assert(!dropped0.contains(w));
                        assert(!gone.contains(w));
                        let positions1 = positions.push(w);
                        assert forall|e: int| 0 <= e < n implies #[trigger] after.update(w, after[w] + 1)[e]
                            == left_after(start, positions, gone)[e] by {
                            lemma_occurrences_push(positions, w, e);
                            if gone.contains(e) {
                                if !dropped0.contains(e) {
                                    assert(kept_or_dropped(rem, after, e));
                                }
                            }
                        }
                        assert(after.update(w, after[w] + 1) =~= left_after(start, positions, gone));
                        let walks1 = walks.push((gone, space_efficient_shuffler.last_walk()));
                        assert forall|i: int| 0 <= i < positions1.len() implies {
                            &&& forall|e: int| #[trigger] walks1[i].0.contains(e) ==> gone.contains(e)
                            &&& walk_to(
                                laid_out_tickets(start, left_after(start, positions1.take(i), walks1[i].0)),
                                walks1[i].1,
                                tree_leaf(start, positions1[i]),
                            )
                        } by {
                            if i < positions.len() {
                                assert(positions1.take(i) =~= positions.take(i));
                                assert(walks1[i] == walks[i]);
                            } else {
                                assert(positions1.take(i) =~= positions);
                            }
                        }
                        walks = walks1;
                        positions = positions1;
                    } else {
                        if pos0 >= expand(prizes@).len() {
                            assert(after =~= rem);
                        }
                        lemma_wins_within_step(start, rem, after, positions, false, 0);
                        dropped = lemma_stayed_step(start, rem, after, positions, dropped, false, 0, positions);
                        if pos0 < expand(prizes@).len() {
                            assert forall|e: int| 0 <= e < n implies #[trigger] after[e] == 0 by {
                                assert(after[e] == 0);
                            }
                        }
                    }
                    assert forall|e: int| #[trigger] dropped.contains(e) implies 0 <= e < n && after[e] == 0 by {
                        if !dropped0.contains(e) {
                            assert(kept_or_dropped(rem, after, e));
                        }
                    }
                    assert forall|e: int, q: &'p Prize|
                        0 <= e < n && dropped.contains(e) implies !#[trigger] ents@[e].accepts_spec(q) by {
                        if dropped0.contains(e) {
                            assert(ents@[e] == ents_b[e]);
                        } else {
                            assert(refuses_all(ents_b[e]));
                            assert(ents@[e] == ents_b[e]);
                        }
                    }
                    assert forall|e: int| 0 <= e < n implies #[trigger] reaches(
                        ents0[e],
                        awarded_to(positions, e, urefs),
                        ents@[e],
                    ) by {
                        if drawn {
                            lemma_awarded_push(positions0, e, urefs, w);
                            if e == w {
                                lemma_reaches_step(
                                    ents0[e],
                                    awarded_to(positions0, e, urefs),
                                    ents_b[e],
                                    unit,
                                    ents@[e],
                                );
                            } else {
                                assert(ents@[e] == ents_b[e]);
                            }
                        } else {
                            if pos0 >= expand(prizes@).len() {
                                assert(after[e] == rem[e]);
                            }
                            assert(ents@[e] == ents_b[e]);
                        }
                    }
                }
                if !drawn {
                    break ;
                }
            }
        },
        None => {},
    }
    Ghost((positions, dropped, walks))
}

/// [`draw_by_tree`] among the users of a [`crate::tickets::Tickets`].
pub(crate) fn draw_users_by_tree<'p, U: User<'p>, R: Rng + ?Sized>(
    users: &mut Vec<U>,
    counts: &Vec<usize>,
    prizes: &'p Vec<Prize>,
    rng: &mut R,
) -> (won: Ghost<(Seq<int>, Set<int>, Seq<(Set<int>, Seq<(int, Draw)>)>)>)
    requires
        counts@.len() == old(users)@.len(),
    ensures
        final(users)@.len() == old(users)@.len(),
        walked_tree(won@.0, won@.1, won@.2, as_nats(counts@)),
        winner_positions(won@.0, as_nats(counts@), prizes@),
        ran_out(won@.0, won@.1, as_nats(counts@), prizes@),
        forall|e: int|
            0 <= e < old(users)@.len() ==> #[trigger] user_reaches(
                old(users)@[e],
                awarded_to(won@.0, e, refs_of(expand(prizes@))),
                final(users)@[e],
            ),
        forall|e: int| #[trigger] won@.1.contains(e) ==> 0 <= e < old(users)@.len(),
        forall|e: int, q: &'p Prize|
            0 <= e < old(users)@.len() && won@.1.contains(e) ==> !#[trigger] final(users)@[e].accepts_spec(q),
{
    let ghost start = as_nats(counts@);
    let ghost n = users@.len();
    let ghost mut positions: Seq<int> = Seq::empty();
    let ghost mut dropped: Set<int> = Set::empty();
    let ghost mut walks: Seq<(Set<int>, Seq<(int, Draw)>)> = Seq::empty();
    let ghost ents0 = users@;
    let mut queue = PrizeQueue::by_count(prizes);
    let ghost urefs = queue.unit_refs();
    proof {
        assert forall|e: int| 0 <= e < n implies #[trigger] user_reaches(
            ents0[e],
            awarded_to(positions, e, urefs),
            users@[e],
        ) by {
            lemma_user_reaches_none::<'p, _>(ents0[e]);
        }
    }
    match SpaceEfficientShuffler::try_from_ticket_counts(counts) {
        Some(mut space_efficient_shuffler) => {
            loop
                invariant
                    space_efficient_shuffler.wf(),
                    space_efficient_shuffler.num_entrants() == n,
                    space_efficient_shuffler.node_count() == tree_size(start),
                    forall|e: int|
                        0 <= e < n ==> #[trigger] space_efficient_shuffler.leaf_of(e) == if start[e] > 0 {
                            tree_leaf(start, e)
                        } else {
                            -1
                        },
                    walked_tree(positions, dropped, walks, start),
                    users@.len() == n,
                    start.len() == n,
                    queue.wf(),
                    queue.units() == expand(prizes@),
                    positions.len() == queue.position(),
                    forall|i: int| 0 <= i < positions.len() ==> 0 <= #[trigger] positions[i] < n,
                    positions.len() <= expand(prizes@).len(),
                    queue.unit_refs() == urefs,
                    forall|e: int|
                        0 <= e < n ==> #[trigger] user_reaches(
                            ents0[e],
                            awarded_to(positions, e, urefs),
                            users@[e],
                        ),
                    wins_within(start, space_efficient_shuffler.remaining(), positions),
                    forall|e: int|
                        0 <= e < n && !dropped.contains(e) ==> #[trigger] occurrences(positions, e)
                            + space_efficient_shuffler.remaining()[e] == start[e],
                    forall|e: int|
                        #[trigger] dropped.contains(e) ==> 0 <= e < n && space_efficient_shuffler.remaining()[e] == 0,
                    forall|e: int, q: &'p Prize|
                        0 <= e < n && dropped.contains(e) ==> !#[trigger] users@[e].accepts_spec(q),
                ensures
                    positions.len() == expand(prizes@).len() || forall|e: int|
                        0 <= e < n && !dropped.contains(e) ==> #[trigger] occurrences(positions, e)
                            == start[e],
                decreases space_efficient_shuffler.total(),
            {
                let ghost rem = space_efficient_shuffler.remaining();
                let ghost pos0 = queue.position();
                proof {
                    space_efficient_shuffler.lemma_total();
                }
                let ghost ents_b = users@;
                let ghost queue_b = queue;
                let drawn = space_efficient_shuffler.try_draw_one_user(users, rng, &mut queue);
                proof {
                    space_efficient_shuffler.lemma_total();
                    queue.lemma_position_bound();
                    let after = space_efficient_shuffler.remaining();
                    let unit = queue_b.unit_refs()[queue_b.position()];
                    let positions0 = positions;
                    let dropped0 = dropped;
                    assert forall|e: int| 0 <= e < n && dropped0.contains(e) implies after[e] == 0
                        && users@[e] == ents_b[e] by {
                        assert(kept_or_dropped(rem, after, e));
                        assert(after[e] == rem[e]);
                    }
                    let mut w: int = 0;
                    if drawn {
                        w = choose|w: int| #[trigger] user_won_by(w, rem, after, ents_b, users@, unit)
                            && walked_to_winner(space_efficient_shuffler, w);
                        lemma_wins_within_step(start, rem, after, positions, true, w);
                        dropped = lemma_stayed_step(start, rem, after, positions, dropped, true, w, positions.push(w));
                        assert(occurrences(positions, w) + rem[w] <= start[w]);
                        space_efficient_shuffler.lemma_walked_laid_out(start, w);
                        let gone = dropped;
                        assert(!dropped0.contains(w));
                        assert(!gone.contains(w));
                        let positions1 = positions.push(w);
                        assert forall|e: int| 0 <= e < n implies #[trigger] after.update(w, after[w] + 1)[e]
                            == left_after(start, positions, gone)[e] by {
                            lemma_occurrences_push(positions, w, e);
                            if gone.contains(e) {
                                if !dropped0.contains(e) {
                                    assert(kept_or_dropped(rem, after, e));
                                }
                            }
                        }
                        assert(after.update(w, after[w] + 1) =~= left_after(start, positions, gone));
                        let walks1 = walks.push((gone, space_efficient_shuffler.last_walk()));
                        assert forall|i: int| 0 <= i < positions1.len() implies {
                            &&& forall|e: int| #[trigger] walks1[i].0.contains(e) ==> gone.contains(e)
                            &&& walk_to(
                                laid_out_tickets(start, left_after(start, positions1.take(i), walks1[i].0)),
                                walks1[i].1,
                                tree_leaf(start, positions1[i]),
                            )
                        } by {
                            if i < positions.len() {
                                assert(positions1.take(i) =~= positions.take(i));
                                assert(walks1[i] == walks[i]);
                            } else {
                                assert(positions1.take(i) =~= positions);
                            }
                        }
                        walks = walks1;
                        positions = positions1;
                    } else {
                        if pos0 >= expand(prizes@).len() {
                            assert(after =~= rem);
                        }
                        lemma_wins_within_step(start, rem, after, positions, false, 0);
                        dropped = lemma_stayed_step(start, rem, after, positions, dropped, false, 0, positions);
                        if pos0 < expand(prizes@).len() {
                            assert forall|e: int| 0 <= e < n implies #[trigger] after[e] == 0 by {
                                assert(after[e] == 0);
                            }
                        }
                    }
                    assert forall|e: int| #[trigger] dropped.contains(e) implies 0 <= e < n && after[e] == 0 by {
                        if !dropped0.contains(e) {
                            assert(kept_or_dropped(rem, after, e));
                        }
                    }
                    assert forall|e: int, q: &'p Prize|
                        0 <= e < n && dropped.contains(e) implies !#[trigger] users@[e].accepts_spec(q) by {
                        if dropped0.contains(e) {
                            assert(users@[e] == ents_b[e]);
                        } else {
                            assert(user_refuses_all(ents_b[e]));
                            assert(users@[e] == ents_b[e]);
                        }
                    }
                    assert forall|e: int| 0 <= e < n implies #[trigger] user_reaches(
                        ents0[e],
                        awarded_to(positions, e, urefs),
                        users@[e],
                    ) by {
                        if drawn {
                            lemma_awarded_push(positions0, e, urefs, w);
                            if e == w {
                                lemma_user_reaches_step(
                                    ents0[e],
                                    awarded_to(positions0, e, urefs),
                                    ents_b[e],
                                    unit,
                                    users@[e],
                                );
                            } else {
                                assert(users@[e] == ents_b[e]);
                            }
                        } else {
                            if pos0 >= expand(prizes@).len() {
                                assert(after[e] == rem[e]);
                            }
                            assert(users@[e] == ents_b[e]);
                        }
                    }
                }
                if !drawn {
                    break ;
                }
            }
        },
        None => {},
    }
    Ghost((positions, dropped, walks))
}

/// One slot per ticket: position `e` of the list `counts[e]` times, in
/// order.
fn ticket_slots(counts: &Vec<usize>, num_tickets: usize) -> (slots: Vec<usize>)
    ensures
        forall|k: int| 0 <= k < slots@.len() ==> #[trigger] slots@[k] < counts@.len(),
        forall|e: usize| e < counts@.len() ==> #[trigger] occurrences(slots@, e) == counts@[e as int],
{
    let n = counts.len();
    let mut slots: Vec<usize> = Vec::with_capacity(num_tickets);
    let mut i: usize = 0;
    while i < n
        invariant
            i <= n,
            n == counts@.len(),
            forall|k: int| 0 <= k < slots@.len() ==> #[trigger] slots@[k] < i,
            forall|e: usize| e < n ==> #[trigger] occurrences(slots@, e) == if e < i {
                counts@[e as int] as nat
            } else {
                0nat
            },
        decreases n - i,
    {
        let c = counts[i];
        let mut j: usize = 0;
        while j < c
            invariant
                j <= c,
                i < n,
                n == counts@.len(),
                c == counts@[i as int],
                forall|k: int| 0 <= k < slots@.len() ==> #[trigger] slots@[k] <= i,
                forall|e: usize| e < n ==> #[trigger] occurrences(slots@, e) == if e < i {
                    counts@[e as int] as nat
                } else if e == i {
                    j as nat
                } else {
                    0nat
                },
            decreases c - j,
        {
            let ghost prev = slots@;
            slots.push(i);
            proof {
                assert forall|e: usize| e < n implies #[trigger] occurrences(slots@, e) == if e < i {
                    counts@[e as int] as nat
                } else if e == i {
                    (j + 1) as nat
                } else {
                    0nat
                } by {
                    lemma_occurrences_push(prev, i, e);
                }
            }
            j = j + 1;
        }
        i = i + 1;
    }
    slots
}

/// The slots shuffled, each position of the list as many times as it has
/// tickets.
fn shuffled_slots<R: Rng + ?Sized>(counts: &Vec<usize>, num_tickets: usize, rng: &mut R) -> (slots: ShuffledSlots)
    ensures
        forall|k: int| 0 <= k < slots@.len() ==> #[trigger] slots@[k] < counts@.len(),
        forall|e: usize| e < counts@.len() ==> #[trigger] occurrences(slots@, e) == counts@[e as int],
{
    let unshuffled_slots = ticket_slots(counts, num_tickets);
    let ghost unshuffled = unshuffled_slots@;
    let slots = shuffle_slots(unshuffled_slots, rng);
    proof {
        assert forall|k: int| 0 <= k < slots@.len() implies #[trigger] slots@[k] < counts@.len() by {
            let x = slots@[k];
            lemma_occurrences_contains(slots@, x);
            lemma_occurrences_contains(unshuffled, x);
            let j = choose|j: int| 0 <= j < unshuffled.len() && unshuffled[j] == x;
        }
    }
    slots
}

/// After the slots up to `t`, each entrant not in `refused` won one item
/// per slot of its, and every entrant won at most that.
pub open spec fn slots_used(positions: Seq<int>, slots: Seq<usize>, t: int, refused: Set<int>, n: int) -> bool {
    &&& forall|e: usize|
        e < n ==> #[trigger] occurrences(positions, e as int) <= occurrences(slots.take(t), e)
    &&& forall|e: usize|
        e < n && !refused.contains(e as int) ==> #[trigger] occurrences(positions, e as int)
            == occurrences(slots.take(t), e)
}

/// An array draw walked `slots`, the ticket slots (each entrant as many
/// times as its count) in the order the generator shuffled them, up to
/// slot `t`: each entrant that stayed in the draw won one item per slot of
/// its among the first `t`, none won more, and the walk stopped only for
/// want of items, of slots or of entrants.
pub open spec fn walked_slots(
    won: Seq<int>,
    refused: Set<int>,
    slots: Seq<usize>,
    t: int,
    counts: Seq<nat>,
    prizes: Seq<Prize>,
) -> bool {
    &&& forall|e: usize| e < counts.len() ==> #[trigger] occurrences(slots, e) == counts[e as int]
    &&& forall|k: int| 0 <= k < slots.len() ==> #[trigger] slots[k] < counts.len()
    &&& 0 <= t <= slots.len()
    &&& slots_used(won, slots, t, refused, counts.len() as int)
    &&& {
        ||| won.len() == expand(prizes).len()
        ||| t == slots.len()
        ||| forall|e: int| 0 <= e < counts.len() ==> #[trigger] refused.contains(e)
    }
}

/// Each entrant owns as many of the ticket slots as it has tickets, out of
/// as many slots as there are tickets in all: a slot at a given place of a
/// uniformly shuffled list belongs to an entrant with a chance
/// proportional to its tickets.
pub proof fn lemma_slot_share(slots: Seq<usize>, counts: Seq<nat>, e: usize)
    requires
        counts.len() <= usize::MAX,
        forall|x: usize| x < counts.len() ==> #[trigger] occurrences(slots, x) == counts[x as int],
        forall|k: int| 0 <= k < slots.len() ==> #[trigger] slots[k] < counts.len(),
        e < counts.len(),
    ensures
        slots.len() == seq_sum(counts),
        places(slots, e).finite(),
        places(slots, e).len() == counts[e as int],
{
    lemma_places_len(slots, e);
    lemma_tally_usize_sum(slots, counts.len());
    assert forall|i: int| 0 <= i < counts.len() implies #[trigger] tally_usize(slots, counts.len())[i]
        == counts[i] by {
        assert(occurrences(slots, i as usize) == counts[(i as usize) as int]);
    }
    assert(tally_usize(slots, counts.len()) =~= counts);
}

/// One more slot: a win by its owner, or a slot of an entrant in `refused`.
proof fn lemma_slots_used_step(
    positions: Seq<int>,
    slots: Seq<usize>,
    t: int,
    refused: Set<int>,
    n: int,
    won: bool,
)
    requires
        0 <= t < slots.len(),
        slots[t] < n,
        slots_used(positions, slots, t, refused, n),
        !won ==> refused.contains(slots[t] as int),
    ensures
        slots_used(
            if won { positions.push(slots[t] as int) } else { positions },
            slots,
            t + 1,
            refused,
            n,
        ),
{
    let p2 = if won { positions.push(slots[t] as int) } else { positions };
    assert forall|e: usize| e < n implies #[trigger] occurrences(p2, e as int) <= occurrences(
        slots.take(t + 1),
        e,
    ) && (!refused.contains(e as int) ==> occurrences(p2, e as int) == occurrences(
        slots.take(t + 1),
        e,
    )) by {
        lemma_occurrences_push(positions, slots[t] as int, e as int);
        lemma_occurrences_take_step(slots, t, e);
    }
}

/// At the end of the slots each entrant not in `refused` won one item per
/// ticket, and every entrant won at most its tickets.
proof fn lemma_slots_done(positions: Seq<int>, slots: Seq<usize>, t: int, refused: Set<int>, counts: Seq<usize>)
    requires
        counts.len() <= usize::MAX,
        0 <= t <= slots.len(),
        slots_used(positions, slots, t, refused, counts.len() as int),
        forall|e: usize| e < counts.len() ==> #[trigger] occurrences(slots, e) == counts[e as int],
    ensures
        forall|e: int| 0 <= e < counts.len() ==> #[trigger] occurrences(positions, e) <= as_nats(counts)[e],
        t == slots.len() ==> forall|e: int|
            0 <= e < counts.len() && !refused.contains(e) ==> #[trigger] occurrences(positions, e)
                == as_nats(counts)[e],
{
    assert forall|e: int| 0 <= e < counts.len() implies #[trigger] occurrences(positions, e) <= as_nats(
        counts,
    )[e] && (t == slots.len() && !refused.contains(e) ==> occurrences(positions, e) == as_nats(
        counts,
    )[e]) by {
        let u = e as usize;
        assert(u as int == e);
        lemma_occurrences_prefix(slots, t, u);
        assert(occurrences(positions, u as int) <= occurrences(slots.take(t), u));
        assert(occurrences(slots, u) == counts[e]);
        if t == slots.len() {
            assert(slots.take(t) =~= slots);
        }
    }
}

/// Hands out the prize items, the biggest prize first and each prize by its
/// count, along a shuffled list of ticket slots, one slot per ticket of
/// `counts`: each item goes to the owner of the next slot that is still in
/// the draw; an entrant that refuses a prize leaves the draw, and the draw
/// ends when no slot, no item or no entrant is left. `num_tickets` is the
/// room to set aside for the slots. The second part of the result holds the
/// entrants that left the draw.
pub(crate) fn draw_by_array<'p, E: Entrant<'p>, R: Rng + ?Sized>(
    ents: &mut Vec<E>,
    counts: &Vec<usize>,
    prizes: &'p Vec<Prize>,
    rng: &mut R,
    num_tickets: usize,
) -> (won: Ghost<(Seq<int>, Set<int>, ShuffledSlots, int)>)
    requires
        counts@.len() == old(ents)@.len(),
    ensures
        final(ents)@.len() == old(ents)@.len(),
        walked_slots(won@.0, won@.1, won@.2@, won@.3, as_nats(counts@), prizes@),
        winner_positions(won@.0, as_nats(counts@), prizes@),
        ran_out(won@.0, won@.1, as_nats(counts@), prizes@),
        forall|e: int|
            0 <= e < old(ents)@.len() ==> #[trigger] reaches(
                old(ents)@[e],
                awarded_to(won@.0, e, refs_of(expand(prizes@))),
                final(ents)@[e],
            ),
        forall|e: int| #[trigger] won@.1.contains(e) ==> 0 <= e < old(ents)@.len(),
        forall|e: int, q: &'p Prize|
            0 <= e < old(ents)@.len() && won@.1.contains(e) ==> !#[trigger] final(ents)@[e].accepts_spec(q),
{
    let n = ents.len();
    let slots = shuffled_slots(counts, num_tickets, rng);
    // the entrants still in the draw, by position
    let mut available_entrants: HashSet<usize> = HashSet::new();
    let mut k: usize = 0;
    while k < n
        invariant
            k <= n,
            forall|e: usize| #[trigger] available_entrants@.contains(e) <==> e < k,
        decreases n - k,
    {
        available_entrants.insert(k);
        k = k + 1;
    }
    let ghost mut available: Seq<bool> = Seq::new(n as nat, |e: int| true);
    let mut queue = PrizeQueue::by_count(prizes);
    let ghost mut positions: Seq<int> = Seq::empty();
    let ghost ents0 = ents@;
    let ghost urefs = queue.unit_refs();
    proof {
        assert forall|e: int| 0 <= e < n implies #[trigger] reaches(
            ents0[e],
            awarded_to(positions, e, urefs),
            ents@[e],
        ) by {
            lemma_reaches_none::<'p, _>(ents0[e]);
        }
    }
    let len = slots.len();
    let mut t: usize = 0;
    proof {
        assert(slots@.take(0) =~= Seq::<usize>::empty());
    }
    while t < len
        invariant
            t <= len,
            len == slots@.len(),
            n == counts@.len(),
            forall|k: int| 0 <= k < slots@.len() ==> #[trigger] slots@[k] < n,
            forall|e: usize| e < n ==> #[trigger] occurrences(slots@, e) == counts@[e as int],
            ents@.len() == n,
            available.len() == n,
            forall|e: usize| #[trigger] available_entrants@.contains(e) <==> e < n && available[e as int],
            queue.wf(),
            queue.units() == expand(prizes@),
            queue.unit_refs() == urefs,
            ents@.len() == ents0.len(),
            forall|e: int|
                0 <= e < n ==> #[trigger] reaches(ents0[e], awarded_to(positions, e, urefs), ents@[e]),
            positions.len() == queue.position(),
            forall|k: int| 0 <= k < positions.len() ==> 0 <= #[trigger] positions[k] < n,
            slots_used(positions, slots@, t as int, Set::new(|e: int| !available[e]), n as int),
            forall|e: int, q: &'p Prize|
                0 <= e < n && !available[e] ==> !#[trigger] ents@[e].accepts_spec(q),
        ensures
            slots_used(positions, slots@, t as int, Set::new(|e: int| !available[e]), n as int),
            positions.len() == expand(prizes@).len() || t == len || forall|e: int|
                0 <= e < n ==> !#[trigger] available[e],
        decreases len - t,
    {
        let ghost refused0 = Set::new(|e: int| !available[e]);
        proof {
            queue.lemma_position_bound();
        }
        let prize = match queue.peek() {
            Some(p) => p,
            None => {
                break ;
            },
        };
        let pos = slots.get(t);
        if available_entrants.contains(&pos) {
            let ghost ents_b = ents@;
            if ents[pos].add_prize(prize) {
                queue.advance();
                proof {
                    lemma_slots_used_step(positions, slots@, t as int, refused0, n as int, true);
                    let positions0 = positions;
                    positions = positions.push(pos as int);
                    assert forall|e: int| 0 <= e < n implies #[trigger] reaches(
                        ents0[e],
                        awarded_to(positions, e, urefs),
                        ents@[e],
                    ) by {
                        lemma_awarded_push(positions0, e, urefs, pos as int);
                        if e == pos {
                            lemma_reaches_step(ents0[e], awarded_to(positions0, e, urefs), ents_b[e], prize, ents@[e]);
                        } else {
                            assert(ents@[e] == ents_b[e]);
                        }
                    }
                }
                t = t + 1;
            } else {
                // an entrant that refuses a prize accepts no more
                proof {
                    assert(ents@ =~= ents_b);
                }
                available_entrants.remove(&pos);
                proof {
                    available = available.update(pos as int, false);
                }
                proof {
                    let refused1 = Set::new(|e: int| !available[e]);
                    assert forall|e: usize| e < n && !refused1.contains(e as int) implies #[trigger] occurrences(
                        positions,
                        e as int,
                    ) == occurrences(slots@.take(t as int), e) by {
                        assert(!refused0.contains(e as int));
                    }
                    lemma_slots_used_step(positions, slots@, t as int, refused1, n as int, false);
                }
                t = t + 1;
                if available_entrants.is_empty() {
                    // nobody is left to take a prize
                    proof {
                        assert forall|e: int| 0 <= e < n implies !#[trigger] available[e] by {
                            if available[e] {
                                assert(available_entrants@.contains(e as usize));
                            }
                        }
                    }
                    break ;
                }
            }
        } else {
            proof {
                lemma_slots_used_step(positions, slots@, t as int, refused0, n as int, false);
            }
            t = t + 1;
        }
    }
    let ghost refused = Set::new(|e: int| 0 <= e < n && !available[e]);
    proof {
        queue.lemma_position_bound();
        lemma_slots_done(positions, slots@, t as int, Set::new(|e: int| !available[e]), counts@);
        assert forall|e: usize| e < n && !refused.contains(e as int) implies #[trigger] occurrences(
            positions,
            e as int,
        ) == occurrences(slots@.take(t as int), e) by {
            assert(!Set::new(|e: int| !available[e]).contains(e as int));
        }
        if !(positions.len() == expand(prizes@).len() || t == len) {
            assert forall|e: int| 0 <= e < n implies #[trigger] refused.contains(e) by {
                assert(!available[e]);
            }
        }
    }
    Ghost((positions, refused, slots, t as int))
}

/// Hands out the prize items, the biggest prize first and each prize by its
/// count, along a shuffled list of ticket slots, one slot per ticket of
/// `counts`: each item goes to the owner of the next slot that takes it, and
/// the draw ends when no slot or no item is left. The second part of the
/// result holds the users that refused a prize.
pub(crate) fn draw_users_by_array<'p, U: User<'p>, R: Rng + ?Sized>(
    users: &mut Vec<U>,
    counts: &Vec<usize>,
    prizes: &'p Vec<Prize>,
    rng: &mut R,
) -> (won: Ghost<(Seq<int>, Set<int>, ShuffledSlots, int)>)
    requires
        counts@.len() == old(users)@.len(),
    ensures
        final(users)@.len() == old(users)@.len(),
        walked_slots(won@.0, won@.1, won@.2@, won@.3, as_nats(counts@), prizes@),
        winner_positions(won@.0, as_nats(counts@), prizes@),
        ran_out(won@.0, won@.1, as_nats(counts@), prizes@),
        forall|e: int|
            0 <= e < old(users)@.len() ==> #[trigger] user_reaches(
                old(users)@[e],
                awarded_to(won@.0, e, refs_of(expand(prizes@))),
                final(users)@[e],
            ),
        forall|e: int| #[trigger] won@.1.contains(e) ==> 0 <= e < old(users)@.len(),
        forall|e: int, q: &'p Prize|
            0 <= e < old(users)@.len() && won@.1.contains(e) ==> !#[trigger] final(users)@[e].accepts_spec(q),
{
    let n = users.len();
    let slots = shuffled_slots(counts, 0, rng);
    let mut queue = PrizeQueue::by_count(prizes);
    let ghost mut positions: Seq<int> = Seq::empty();
    let ghost ents0 = users@;
    let ghost urefs = queue.unit_refs();
    proof {
        assert forall|e: int| 0 <= e < n implies #[trigger] user_reaches(
            ents0[e],
            awarded_to(positions, e, urefs),
            users@[e],
        ) by {
            lemma_user_reaches_none::<'p, _>(ents0[e]);
        }
    }
    let ghost mut refused: Set<int> = Set::empty();
    let len = slots.len();
    let mut t: usize = 0;
    proof {
        assert(slots@.take(0) =~= Seq::<usize>::empty());
    }
    while t < len
        invariant
            t <= len,
            len == slots@.len(),
            n == counts@.len(),
            forall|k: int| 0 <= k < slots@.len() ==> #[trigger] slots@[k] < n,
            forall|e: usize| e < n ==> #[trigger] occurrences(slots@, e) == counts@[e as int],
            users@.len() == n,
            queue.wf(),
            queue.units() == expand(prizes@),
            queue.unit_refs() == urefs,
            users@.len() == ents0.len(),
            forall|e: int|
                0 <= e < n ==> #[trigger] user_reaches(ents0[e], awarded_to(positions, e, urefs), users@[e]),
            positions.len() == queue.position(),
            forall|k: int| 0 <= k < positions.len() ==> 0 <= #[trigger] positions[k] < n,
            slots_used(positions, slots@, t as int, refused, n as int),
            forall|e: int| #[trigger] refused.contains(e) ==> 0 <= e < n,
            forall|e: int, q: &'p Prize|
                0 <= e < n && refused.contains(e) ==> !#[trigger] users@[e].accepts_spec(q),
        ensures
            slots_used(positions, slots@, t as int, refused, n as int),
            positions.len() == expand(prizes@).len() || t == len,
        decreases len - t,
    {
        proof {
            queue.lemma_position_bound();
        }
        let prize = match queue.peek() {
            Some(p) => p,
            None => {
                break ;
            },
        };
        let pos = slots.get(t);
        let ghost ents_b = users@;
        if users[pos].add_prize(prize) {
            queue.advance();
            proof {
                lemma_slots_used_step(positions, slots@, t as int, refused, n as int, true);
                let positions0 = positions;
                positions = positions.push(pos as int);
                assert forall|e: int| 0 <= e < n implies #[trigger] user_reaches(
                    ents0[e],
                    awarded_to(positions, e, urefs),
                    users@[e],
                ) by {
                    lemma_awarded_push(positions0, e, urefs, pos as int);
                    if e == pos {
                        lemma_user_reaches_step(ents0[e], awarded_to(positions0, e, urefs), ents_b[e], prize, users@[e]);
                    } else {
                        assert(users@[e] == ents_b[e]);
                    }
                }
            }
        } else {
            proof {
                assert(users@ =~= ents_b);
                let refused1 = refused.insert(pos as int);
                assert forall|e: usize| e < n && !refused1.contains(e as int) implies #[trigger] occurrences(
                    positions,
                    e as int,
                ) == occurrences(slots@.take(t as int), e) by {
                    assert(!refused.contains(e as int));
                }
                lemma_slots_used_step(positions, slots@, t as int, refused1, n as int, false);
                refused = refused1;
            }
        }
        t = t + 1;
    }
    proof {
        queue.lemma_position_bound();
        lemma_slots_done(positions, slots@, t as int, refused, counts@);
    }
    Ghost((positions, refused, slots, t as int))
}

} // verus!
