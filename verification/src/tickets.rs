use std::collections::hash_map::{Values, ValuesMut};
use std::collections::HashMap;
use std::hash::{BuildHasher, Hash, RandomState};
use std::marker::PhantomData;

use rand::Rng;

use crate::draw::{
    walked_slots, walked_tree,
    awarded_to, draw_result, draw_users_by_array, draw_users_by_tree, dropped_keys, lemma_award,
    lemma_awarded_rename, user_reaches,
};
use crate::heap_tree::{floor_log2, floor_log2_of, seq_sum};
use crate::keyed_map::{
    empty_with_capacity_and_hasher, empty_with_hasher, insert_all, keyed, put_all, take_all,
    values_mut_of,
};
use crate::prize::Prize;
use crate::random::{Draw, ShuffledSlots};
use crate::prize_queue::{expand, refs_of};
use crate::space_efficient_shuffler::{as_nats, checked_total};
use crate::user::{user_keys_of, user_ticket_counts, User};
use vstd::prelude::*;
use vstd::std_specs::hash::spec_values_iter;
use vstd::std_specs::iter::IteratorSpec;

verus! {

/// How [`Tickets`] picks the winners.
enum UserDrawMethod {
    /// By a tree of the ticket counts.
    Tree,
    /// By shuffled ticket slots.
    Array,
    /// By the tree when the tickets add up to at most the given estimate,
    /// else by shuffled ticket slots.
    ByEstimate(usize),
}

#[verifier::reject_recursive_types(K)]
#[verifier::reject_recursive_types(S)]
pub struct Tickets<'user, K, U, S = RandomState> where K: Hash + Eq, U: User<'user, Key = K> {
    /// Determine whether the lottery has been shuffled and done.
    shuffled: bool,
    /// The users in a hash map, use .users() to get the result
    users: HashMap<K, U, S>,
    /// The prizes, the lower the index, the higher the priority.
    prizes: Vec<Prize>,
    /// The lifetime is actually refering to those `impl User` in the map,
    /// which in turn is referring to `Prize` in this exact struct (`Self::prizes`)
    ///
    /// Rust complains if not explicitly used in any of the fields,
    /// thus the marker.
    _marker: PhantomData<&'user U>,
    /// Who won the prize items handed out so far, in the order of the items.
    winners: Ghost<Seq<K>>,
    /// The keys of the users when the last draw began, in the order the
    /// draw took them.
    drawn_keys: Ghost<Seq<K>>,
    /// The ticket count each of them reported then, in that order.
    drawn_counts: Ghost<Seq<nat>>,
    /// The users that turned down a prize in the last draw (in a draw by the
    /// tree, they left it with tickets left).
    dropped: Ghost<Set<K>>,
    /// Whether the draw went by shuffled ticket slots (else by the tree).
    by_slots: Ghost<bool>,
    /// How a draw by slots went: the winners by position in the list of
    /// drawn keys, the positions that left the draw, the slots it walked
    /// and how far.
    slot_walk: Ghost<Option<(Seq<int>, Set<int>, ShuffledSlots, int)>>,
    /// How a draw by the tree went: the winners by position in the list of
    /// drawn keys, the positions that left the draw, and the walk down the
    /// tree that handed out each item.
    tree_walk: Ghost<Option<(Seq<int>, Set<int>, Seq<(Set<int>, Seq<(int, Draw)>)>)>>,
}

/// A draw on `before` that leaves `after`: the tickets are marked shuffled,
/// the prizes stay, the winners so far stay first, and the users stay under
/// the same keys while the new winners are an award of the prize items
/// among them, none winning more items than the tickets it reported, and
/// the draw stopped only for want of items or of tickets (see
/// [`draw_result`]).
pub open spec fn tickets_drawn_from<'u, K: Hash + Eq, U: User<'u, Key = K>, S>(
    before: Tickets<'u, K, U, S>,
    after: Tickets<'u, K, U, S>,
) -> bool {
    &&& after.shuffled_view()
    &&& after.prizes_view() == before.prizes_view()
    &&& after.winners_view().len() >= before.winners_view().len()
    &&& after.winners_view().take(before.winners_view().len() as int) == before.winners_view()
    &&& keyed::<K, S>() ==> {
        &&& after.users_view().dom() == before.users_view().dom()
        &&& draw_result(
            before.users_view(),
            before.prizes_view(),
            after.winners_view().skip(before.winners_view().len() as int),
            after.drawn_keys_view(),
            after.drawn_counts_view(),
            after.dropped_view(),
        )
        &&& forall|i: int|
            0 <= i < after.drawn_keys_view().len() ==> #[trigger] after.drawn_counts_view()[i]
                == before.users_view()[after.drawn_keys_view()[i]].tickets_spec()
        &&& forall|k: K|
            #[trigger] before.users_view().contains_key(k) ==> user_reaches(
                before.users_view()[k],
                awarded_to(
                    after.winners_view().skip(before.winners_view().len() as int),
                    k,
                    refs_of(expand(before.prizes_view())),
                ),
                after.users_view()[k],
            )
        &&& forall|k: K| #[trigger] after.dropped_view().contains(k) ==> after.users_view().contains_key(k)
        &&& forall|k: K, q: &'u Prize|
            after.dropped_view().contains(k) ==> !#[trigger] after.users_view()[k].accepts_spec(q)
    }
}

/// The draw from `before` to `after` went by the tree: each new winner is
/// the one a walk down the tree, steered by the generator's draws, led to.
pub open spec fn tickets_tree_drawn<'u, K: Hash + Eq, U: User<'u, Key = K>, S>(
    before: Tickets<'u, K, U, S>,
    after: Tickets<'u, K, U, S>,
) -> bool {
    &&& !after.drawn_by_slots_view()
    &&& after.tree_walk_view() matches Some(w) && {
        &&& walked_tree(w.0, w.1, w.2, after.drawn_counts_view())
        &&& forall|i: int| 0 <= i < w.0.len() ==> 0 <= #[trigger] w.0[i] < after.drawn_keys_view().len()
        &&& after.winners_view() == before.winners_view() + w.0.map_values(
            |q: int| after.drawn_keys_view()[q],
        )
    }
}

/// The draw from `before` to `after` went by slots: the new winners are
/// those of a walk along ticket slots that the generator shuffled.
pub open spec fn tickets_slot_drawn<'u, K: Hash + Eq, U: User<'u, Key = K>, S>(
    before: Tickets<'u, K, U, S>,
    after: Tickets<'u, K, U, S>,
) -> bool {
    &&& after.drawn_by_slots_view()
    &&& after.slot_walk_view() matches Some(w) && {
        &&& walked_slots(w.0, w.1, w.2@, w.3, after.drawn_counts_view(), after.prizes_view())
        &&& forall|i: int| 0 <= i < w.0.len() ==> 0 <= #[trigger] w.0[i] < after.drawn_keys_view().len()
        &&& after.winners_view() == before.winners_view() + w.0.map_values(
            |q: int| after.drawn_keys_view()[q],
        )
    }
}

/// `after` holds what `before` held.
pub open spec fn tickets_unchanged<'u, K: Hash + Eq, U: User<'u, Key = K>, S>(
    before: Tickets<'u, K, U, S>,
    after: Tickets<'u, K, U, S>,
) -> bool {
    &&& after.users_view() == before.users_view()
    &&& after.prizes_view() == before.prizes_view()
    &&& after.shuffled_view() == before.shuffled_view()
    &&& after.winners_view() == before.winners_view()
    &&& after.drawn_keys_view() == before.drawn_keys_view()
    &&& after.drawn_counts_view() == before.drawn_counts_view()
    &&& after.dropped_view() == before.dropped_view()
    &&& after.drawn_by_slots_view() == before.drawn_by_slots_view()
}

impl<'u, K: Hash + Eq, U: User<'u, Key = K>, S> Tickets<'u, K, U, S> {
    /// A draw with the given map of users, no prize, not shuffled.
    fn from_map(users: HashMap<K, U, S>) -> (r: Self)
        ensures
            r.users_view() == users@,
            r.prizes_view() == Seq::<Prize>::empty(),
            r.winners_view() == Seq::<K>::empty(),
            !r.shuffled_view(),
    {
        Self {
            users,
            prizes: Vec::new(),
            shuffled: false,
            _marker: PhantomData,
            winners: Ghost(Seq::empty()),
            drawn_keys: Ghost(Seq::empty()),
            drawn_counts: Ghost(Seq::empty()),
            dropped: Ghost(Set::empty()),
            by_slots: Ghost(false),
            slot_walk: Ghost(None),
            tree_walk: Ghost(None),
        }
    }

    /// The users by key.
    pub closed spec fn users_view(&self) -> Map<K, U> {
        self.users@
    }

    /// How many users the map holds.
    pub closed spec fn user_count(&self) -> nat {
        self.users.len() as nat
    }

    /// The prizes, the biggest first.
    pub closed spec fn prizes_view(&self) -> Seq<Prize> {
        self.prizes@
    }

    /// Whether the prizes have been distributed.
    pub closed spec fn shuffled_view(&self) -> bool {
        self.shuffled
    }

    /// The keys of the users that won the prize items handed out so far, in
    /// the order the items were handed out.
    pub closed spec fn winners_view(&self) -> Seq<K> {
        self.winners@
    }

    /// The keys of the users when the last draw began, in the order the
    /// draw took them.
    pub closed spec fn drawn_keys_view(&self) -> Seq<K> {
        self.drawn_keys@
    }

    /// The ticket count each user reported when the last draw began, in
    /// the order of [`Self::drawn_keys_view`].
    pub closed spec fn drawn_counts_view(&self) -> Seq<nat> {
        self.drawn_counts@
    }

    /// The users that turned down a prize in the last draw (in a draw by the
    /// tree, they left it with tickets left).
    pub closed spec fn dropped_view(&self) -> Set<K> {
        self.dropped@
    }

    /// Whether the draw went by shuffled ticket slots rather than by the
    /// tree of ticket counts.
    pub closed spec fn drawn_by_slots_view(&self) -> bool {
        self.by_slots@
    }

    /// How a draw by slots went: the winners by position in
    /// [`Self::drawn_keys_view`], the positions that left the draw, the
    /// slots it walked (in the order the generator shuffled them) and how
    /// far.
    pub closed spec fn slot_walk_view(&self) -> Option<(Seq<int>, Set<int>, ShuffledSlots, int)> {
        self.slot_walk@
    }

    /// How a draw by the tree went: the winners by position in the list
    /// of drawn keys, the positions that left the draw, and the walk down
    /// the tree (with the generator's draws) that handed out each item.
    pub closed spec fn tree_walk_view(&self) -> Option<(Seq<int>, Set<int>, Seq<(Set<int>, Seq<(int, Draw)>)>)> {
        self.tree_walk@
    }

    /// The iterator over the users that [`Tickets::users`] returns.
    pub closed spec fn users_iter(&self) -> Values<'_, K, U> {
        spec_values_iter(&self.users)
    }

    /// With keys that behave as vstd's model of hash map keys, the iterator
    /// of [`Tickets::users`] yields each of them once.
    pub proof fn lemma_users_iter(&self)
        ensures
            keyed::<K, S>() ==> {
                &&& self.users_iter().remaining().len() == self.users_view().dom().len()
                &&& self.users_iter().remaining().unref().to_set() == self.users_view().values()
            },
    {
    }

    /// With keys that behave as vstd's model of hash map keys, the count of
    /// users is the size of the map.
    pub proof fn lemma_user_count(&self)
        ensures
            keyed::<K, S>() ==> self.user_count() == self.users_view().len(),
    {
    }
}

impl<'u, K, U> Default for Tickets<'u, K, U> where K: Hash + Eq, U: User<'u, Key = K> {
    fn default() -> (r: Self)
        ensures
            r.users_view() == Map::<K, U>::empty(),
            r.prizes_view() == Seq::<Prize>::empty(),
            r.winners_view() == Seq::<K>::empty(),
            !r.shuffled_view(),
    {
        Self::new()
    }
}

impl<'u, K, U> Tickets<'u, K, U> where K: Hash + Eq, U: User<'u, Key = K> {
    /// The map of users is finite.
    pub proof fn lemma_users_finite(&self)
        ensures
            self.users_view().dom().finite(),
    {
    }

    pub fn new() -> (r: Self)
        ensures
            r.users_view() == Map::<K, U>::empty(),
            r.prizes_view() == Seq::<Prize>::empty(),
            r.winners_view() == Seq::<K>::empty(),
            !r.shuffled_view(),
    {
        Self::from_map(HashMap::new())
    }

    pub fn with_user_capacity(cap: usize) -> (r: Self)
        ensures
            r.users_view() == Map::<K, U>::empty(),
            r.prizes_view() == Seq::<Prize>::empty(),
            r.winners_view() == Seq::<K>::empty(),
            !r.shuffled_view(),
    {
        Self::from_map(HashMap::with_capacity(cap))
    }
}

impl<'u, K, U, S> Tickets<'u, K, U, S> where K: Hash + Eq, U: User<'u, Key = K>, S: BuildHasher + Default {
    pub fn with_user_capacity_and_hasher(cap: usize, hasher: S) -> (r: Self)
        ensures
            r.users_view() == Map::<K, U>::empty(),
            r.prizes_view() == Seq::<Prize>::empty(),
            r.winners_view() == Seq::<K>::empty(),
            !r.shuffled_view(),
    {
        Self::from_map(empty_with_capacity_and_hasher(cap, hasher))
    }

    pub fn with_hasher(hasher: S) -> (r: Self)
        ensures
            r.users_view() == Map::<K, U>::empty(),
            r.prizes_view() == Seq::<Prize>::empty(),
            r.winners_view() == Seq::<K>::empty(),
            !r.shuffled_view(),
    {
        Self::from_map(empty_with_hasher(hasher))
    }

    /// Check if the prize has been distributed.
    pub fn shuffled(&self) -> (r: bool)
        ensures
            r == self.shuffled_view(),
    {
        self.shuffled
    }

    /// Add a user to the lottery.
    /// When the keys collide, it would return the old user.
    pub fn add_user(&mut self, user: U) -> (replaced: Option<U>)
        ensures
            final(self).prizes_view() == old(self).prizes_view(),
            final(self).shuffled_view() == old(self).shuffled_view(),
            final(self).winners_view() == old(self).winners_view(),
            keyed::<K, S>() ==> {
                let k = user.key_spec();
                &&& final(self).users_view() == old(self).users_view().insert(k, user)
                &&& match replaced {
                    Some(e) => old(self).users_view().contains_key(k) && e == old(self).users_view()[k],
                    None => !old(self).users_view().contains_key(k),
                }
            },
    {
        let k = user.key();
        let ghost key = k;
        let replaced = self.users.insert(k, user);
        proof {
            if keyed::<K, S>() {
                assert(self.users_view() == old(self).users_view().insert(key, user));
                assert(match replaced {
                    Some(e) => old(self).users_view().contains_key(key) && e == old(self).users_view()[key],
                    None => !old(self).users_view().contains_key(key),
                });
            }
        }
        replaced
    }

    /// Set all the users in the lottery.
    /// It is possible to have less user if the keys collide.
    pub fn set_users(&mut self, users: Vec<U>)
        ensures
            final(self).prizes_view() == old(self).prizes_view(),
            final(self).shuffled_view() == old(self).shuffled_view(),
            final(self).winners_view() == old(self).winners_view(),
            keyed::<K, S>() ==> final(self).users_view() == insert_all(user_keys_of(users@), users@),
    {
        self.users.clear();
        let ghost items = users@;
        let ghost mut keys: Seq<K> = Seq::empty();
        for user in it: users.into_iter()
            invariant
                it.seq() == items,
                self.prizes@ == old(self).prizes@,
                self.shuffled == old(self).shuffled,
                self.winners == old(self).winners,
                keys == user_keys_of(items.take(it.index() as int)),
                keyed::<K, S>() ==> self.users@ == insert_all(keys, items.take(it.index() as int)),
        {
            let k = user.key();
            proof {
                let t = items.take(it.index() + 1);
                assert(t.drop_last() =~= items.take(it.index() as int));
                assert(keys.push(k).take(it.index() as int) =~= keys);
                assert(user_keys_of(t) =~= keys.push(k));
                assert(t.last() == user);
                keys = keys.push(k);
            }
            self.users.insert(k, user);
        }
        proof {
            assert(items.take(items.len() as int) =~= items);
        }
    }

    /// Add a prize to the lottery.
    /// The prior added prize would be considered as bigger prize.
    pub fn add_prize(&mut self, prize: Prize)
        ensures
            final(self).prizes_view() == old(self).prizes_view().push(prize),
            final(self).users_view() == old(self).users_view(),
            final(self).shuffled_view() == old(self).shuffled_view(),
            final(self).winners_view() == old(self).winners_view(),
    {
        self.prizes.push(prize);
    }

    /// Set the whole prizes of the lottery.
    /// The prize in position 0 would be the biggest prize, while the last prize would be the smallest prize.
    pub fn set_prizes(&mut self, prizes: Vec<Prize>)
        ensures
            final(self).prizes_view() == prizes@,
            final(self).users_view() == old(self).users_view(),
            final(self).shuffled_view() == old(self).shuffled_view(),
            final(self).winners_view() == old(self).winners_view(),
    {
        self.prizes.clear();
        self.prizes = prizes;
    }

    /// Returns the users.
    pub fn users(&self) -> (r: Values<'_, K, U>)
        ensures
            keyed::<K, S>() ==> r == self.users_iter(),
    {
        self.users.values()
    }

    /// Returns the users, which are mutable.
    pub fn users_mut(&mut self) -> (r: ValuesMut<'_, K, U>)
        ensures
            final(self).users_view().dom() == old(self).users_view().dom(),
            final(self).prizes_view() == old(self).prizes_view(),
            final(self).shuffled_view() == old(self).shuffled_view(),
            final(self).winners_view() == old(self).winners_view(),
    {
        values_mut_of(&mut self.users)
    }
}

impl<'u, 'myself, K, U, S> Tickets<'u, K, U, S> where
    K: Hash + Eq,
    U: User<'u, Key = K>,
    S: BuildHasher + Default,
    'myself: 'u,
 {
    /// Takes the users out of the map, draws the winners among them as
    /// `method` says, and puts them back.
    fn draw<R: Rng + ?Sized>(&'myself mut self, rng: &mut R, method: UserDrawMethod)
        requires
            !old(self).shuffled_view(),
        ensures
            tickets_drawn_from(*old(self), *final(self)),
            method is Tree ==> !final(self).drawn_by_slots_view(),
            method is Array ==> tickets_slot_drawn(*old(self), *final(self)),
            method matches UserDrawMethod::ByEstimate(bound) ==> (final(self).drawn_by_slots_view()
                <==> seq_sum(final(self).drawn_counts_view()) > bound),
            final(self).drawn_by_slots_view() ==> tickets_slot_drawn(*old(self), *final(self)),
            !final(self).drawn_by_slots_view() ==> tickets_tree_drawn(*old(self), *final(self)),
    {
        self.shuffled = true;
        let ghost before = self.users@;
        let (keys, mut users) = take_all(&mut self.users);
        let ghost keys0 = keys@;
        let ghost users0 = users@;
        let counts = user_ticket_counts(&users);
        let by_array = match method {
            UserDrawMethod::Tree => false,
            UserDrawMethod::Array => true,
            UserDrawMethod::ByEstimate(tree_est) => match checked_total(&counts) {
                Some(array_est) => tree_est < array_est,
                None => true,
            },
        };
        let prizes: &'u Vec<Prize> = &self.prizes;
        let mut walk: Ghost<Option<(Seq<int>, Set<int>, ShuffledSlots, int)>> = Ghost(None);
        let mut twalk: Ghost<Option<(Seq<int>, Set<int>, Seq<(Set<int>, Seq<(int, Draw)>)>)>> = Ghost(None);
        let won = if by_array {
            let w = draw_users_by_array(&mut users, &counts, prizes, rng);
            walk = Ghost(Some(w@));
            Ghost((w@.0, w@.1))
        } else {
            let w = draw_users_by_tree(&mut users, &counts, prizes, rng);
            twalk = Ghost(Some(w@));
            Ghost((w@.0, w@.1))
        };
        let ghost new_winners = won@.0.map_values(|q: int| keys0[q]);
        proof {
            if keyed::<K, S>() {
                lemma_award(before, keys0, users0, as_nats(counts@), self.prizes@, won@.0, won@.1);
            }
        }
        let ghost ents1 = users@;
        put_all(&mut self.users, keys, users);
        self.winners = Ghost(self.winners@ + new_winners);
        self.drawn_keys = Ghost(keys0);
        self.drawn_counts = Ghost(as_nats(counts@));
        self.dropped = Ghost(dropped_keys(keys0, won@.1));
        self.by_slots = Ghost(by_array);
        self.slot_walk = walk;
        self.tree_walk = twalk;
        proof {
            let w = self.winners@;
            assert(w.skip(old(self).winners@.len() as int) =~= new_winners);
            assert(w.take(old(self).winners@.len() as int) =~= old(self).winners@);
            if keyed::<K, S>() {
                assert(self.users@.dom() =~= before.dom());
                assert forall|i: int| 0 <= i < keys0.len() implies #[trigger] as_nats(counts@)[i]
                    == before[keys0[i]].tickets_spec() by {
                    assert(before[keys0[i]] == users0[i]);
                }
                let urefs = refs_of::<'u>(expand(self.prizes@));
                assert forall|k: K| #[trigger] before.contains_key(k) implies user_reaches(
                    before[k],
                    awarded_to(new_winners, k, urefs),
                    self.users@[k],
                ) by {
                    let i = choose|i: int| 0 <= i < keys0.len() && #[trigger] keys0[i] == k;
                    lemma_awarded_rename(won@.0, keys0, urefs, i);
                    assert(self.users@[keys0[i]] == ents1[i]);
                    assert(before[keys0[i]] == users0[i]);
                }
                assert forall|k: K| #[trigger] self.dropped@.contains(k) implies self.users@.contains_key(k)
                    && forall|q: &'u Prize| !#[trigger] self.users@[k].accepts_spec(q) by {
                    let i = choose|i: int| 0 <= i < keys0.len() && won@.1.contains(i) && keys0[i] == k;
                    assert(self.users@[keys0[i]] == ents1[i]);
                }
            }
        }
    }

    /// Shuffle and distribute the prizes to the users: by the tree of
    /// [`Tickets::shuffle_tree`] when the users hold no more tickets than
    /// `3 * n * floor(log2(n))` for `n` users, else by the shuffled slots of
    /// [`Tickets::shuffle_array`] (also when the tickets add up to more than
    /// `usize::MAX`). Tickets already shuffled are left as they were.
    pub fn shuffle<R: Rng + ?Sized>(&'myself mut self, rng: &mut R)
        requires
            old(self).user_count() > 0,
            3 * old(self).user_count() * floor_log2(old(self).user_count()) <= usize::MAX,
        ensures
            old(self).shuffled_view() ==> tickets_unchanged(*old(self), *final(self)),
            !old(self).shuffled_view() ==> tickets_drawn_from(*old(self), *final(self)),
            !old(self).shuffled_view() ==> (final(self).drawn_by_slots_view() <==> seq_sum(
                final(self).drawn_counts_view(),
            ) > 3 * old(self).user_count() * floor_log2(old(self).user_count())),
            !old(self).shuffled_view() && final(self).drawn_by_slots_view() ==> tickets_slot_drawn(
                *old(self),
                *final(self),
            ),
            !old(self).shuffled_view() && !final(self).drawn_by_slots_view() ==> tickets_tree_drawn(
                *old(self),
                *final(self),
            ),
    {
        // The boundary is a guess.
        // Let `u` be the number of users, `t` be the number of tickets, `p` be the number of prizes.
        // Assuming the size of "tree" would require 24 * 2 * u * log(u),
        // while the size of "array" would require 16 * t.
        // We might compare `3*u*log(u)` with `t`.
        let n = self.users.len();
        let log = floor_log2_of(n);
        proof {
            assert(3 * n <= 3 * n * log || log == 0) by (nonlinear_arith);
        }
        let tree_est = 3 * n * log;
        if self.shuffled {
            return ;
        }
        self.draw(rng, UserDrawMethod::ByEstimate(tree_est));
    }

    /// Shuffle the branches and distribute the prizes to the users.
    /// When their tickets add up to more than `usize::MAX`, no prize is handed out.
    pub fn shuffle_tree<R: Rng + ?Sized>(&'myself mut self, rng: &mut R)
        ensures
            old(self).shuffled_view() ==> tickets_unchanged(*old(self), *final(self)),
            !old(self).shuffled_view() ==> tickets_drawn_from(*old(self), *final(self)),
            !old(self).shuffled_view() ==> !final(self).drawn_by_slots_view(),
            !old(self).shuffled_view() ==> tickets_tree_drawn(*old(self), *final(self)),
    {
        if self.shuffled {
            return ;
        }
        self.draw(rng, UserDrawMethod::Tree);
    }

    /// Shuffle the slots and distribute the prizes to the users.
    pub fn shuffle_array<R: Rng + ?Sized>(&'myself mut self, rng: &mut R)
        ensures
            old(self).shuffled_view() ==> tickets_unchanged(*old(self), *final(self)),
            !old(self).shuffled_view() ==> tickets_drawn_from(*old(self), *final(self)),
            !old(self).shuffled_view() ==> final(self).drawn_by_slots_view(),
            !old(self).shuffled_view() ==> tickets_slot_drawn(*old(self), *final(self)),
    {
        // Shuffle twice would cause double spend.
        if self.shuffled {
            return ;
        }
        self.draw(rng, UserDrawMethod::Array);
    }
}

} // verus!
