use vstd::prelude::*;
use crate::tally::occurrences;
use rand::seq::SliceRandom;
use rand::Rng;

verus! {

/// A number the generator drew below a bound. Only [`random_below`] makes
/// one, so a walk that steers by a `Draw` steers by the generator.
pub struct Draw {
    value: usize,
    bound: usize,
}

impl Draw {
    /// The number drawn.
    pub closed spec fn drawn(&self) -> nat {
        self.value as nat
    }

    /// The bound it was drawn below.
    pub closed spec fn below(&self) -> nat {
        self.bound as nat
    }

    /// The number drawn.
    pub fn value(&self) -> (r: usize)
        ensures
            r == self.drawn(),
    {
        self.value
    }
}

/// Draws a number uniformly from `0..bound` with `rand::Rng::random_range`.
/// The contract claims only that the number lies below `bound`; which one
/// comes out rests on the generator.
#[verifier::external_body]
pub(crate) fn random_below<R: Rng + ?Sized>(rng: &mut R, bound: usize) -> (r: Draw)
    requires
        bound > 0,
    ensures
        r.drawn() < bound,
        r.below() == bound,
{
    Draw { value: rng.random_range(..bound), bound }
}

/// Ticket slots in the order that [`shuffle_slots`] left them. Only that
/// function makes one, so a draw that walks these slots walks them in the
/// order the generator shuffled them into.
pub struct ShuffledSlots {
    slots: Vec<usize>,
}

impl View for ShuffledSlots {
    type V = Seq<usize>;

    closed spec fn view(&self) -> Seq<usize> {
        self.slots@
    }
}

impl ShuffledSlots {
    /// How many slots there are.
    pub fn len(&self) -> (r: usize)
        ensures
            r == self@.len(),
    {
        self.slots.len()
    }

    /// The owner of slot `i`.
    pub fn get(&self, i: usize) -> (r: usize)
        requires
            i < self@.len(),
        ensures
            r == self@[i as int],
    {
        self.slots[i]
    }
}

/// `rand::seq::SliceRandom::shuffle` on the slots (a Fisher–Yates shuffle,
/// each order equally likely): the slots come back in a random order, each
/// value as many times as before. The contract claims no more than that;
/// which order comes out rests on the generator.
#[verifier::external_body]
pub(crate) fn shuffle_slots<R: Rng + ?Sized>(slots: Vec<usize>, rng: &mut R) -> (r: ShuffledSlots)
    ensures
        r@.len() == slots@.len(),
        forall|x: usize| #[trigger] occurrences(r@, x) == occurrences(slots@, x),
{
    let mut slots = slots;
    slots.shuffle(rng);
    ShuffledSlots { slots }
}

} // verus!
