use std::hash::Hash;

use crate::ids::fresh_uuid;
use crate::prize::Prize;
use uuid::Uuid;
use vstd::prelude::*;

verus! {

/// Someone who takes part in a draw of [`crate::tickets::Tickets`].
///
/// The spec functions describe what the user answers; an implementation
/// outside Verus writes them as plain methods, which nothing calls, and
/// keeps them in step with `key`, `ticket_count` and `add_prize`.
pub trait User<'a>: Sized {
    type Key: Hash + Eq;

    /// The key the user goes by.
    spec fn key_spec(&self) -> Self::Key;

    /// The tickets the user holds.
    spec fn tickets_spec(&self) -> usize;

    /// Whether the user takes `prize` when it is offered now.
    spec fn accepts_spec(&self, prize: &'a Prize) -> bool;

    /// Whether `after` is what the user becomes by taking `prize`.
    spec fn takes_to(&self, prize: &'a Prize, after: Self) -> bool;

    /// returns the uuid of the user
    fn key(&self) -> (k: Self::Key)
        ensures
            k == self.key_spec(),
    ;

    /// total count of lottery ticket
    fn ticket_count(&self) -> (c: usize)
        ensures
            c == self.tickets_spec(),
    ;

    /// add the prize, return false if failed
    ///
    /// Assumed to be monotone, in the sense that once returned `false`,
    /// it's never `true` again,
    /// effectively the implementation cannot be picky about the prizes;
    /// a prize that fails to be added leaves the user as it was.
    fn add_prize(&mut self, prize: &'a Prize) -> (accepted: bool)
        ensures
            accepted == old(self).accepts_spec(prize),
            accepted ==> old(self).takes_to(prize, *final(self)),
            !accepted ==> *final(self) == *old(self),
            !accepted ==> forall|q: &'a Prize| !#[trigger] old(self).accepts_spec(q),
            final(self).key_spec() == old(self).key_spec(),
    ;

    /// check if the user has at least one prize
    fn has_prize(&self) -> bool;
}

/// The ticket counts the users of a list hold, in order.
pub open spec fn reported_user_tickets<'a, U: User<'a>>(list: Seq<U>) -> Seq<nat> {
    list.map_values(|x: U| x.tickets_spec() as nat)
}

/// The keys the users of a list go by, in order.
pub open spec fn user_keys_of<'a, U: User<'a>>(list: Seq<U>) -> Seq<U::Key> {
    list.map_values(|x: U| x.key_spec())
}

/// Asks each user of the list for its ticket count, in order.
pub(crate) fn user_ticket_counts<'a, U: User<'a>>(users: &Vec<U>) -> (counts: Vec<usize>)
    ensures
        counts@.len() == users@.len(),
        forall|i: int| 0 <= i < counts@.len() ==> #[trigger] counts@[i] == users@[i].tickets_spec(),
{
    let mut counts: Vec<usize> = Vec::with_capacity(users.len());
    let mut i: usize = 0;
    while i < users.len()
        invariant
            i <= users.len(),
            counts@.len() == i,
            forall|j: int| 0 <= j < i ==> #[trigger] counts@[j] == users@[j].tickets_spec(),
        decreases users.len() - i,
    {
        counts.push(users[i].ticket_count());
        i = i + 1;
    }
    counts
}

pub struct SinglePrizeUser<'a> {
    count: usize,  // total count of lottery ticket
    name: String,
    id: Uuid,
    prize: Option<&'a Prize>,
}

pub struct MultiPrizeUser<'a> {
    count: usize,  // total count of lottery ticket
    name: String,
    id: Uuid,
    prizes: Vec<&'a Prize>,
}

pub struct UserBuilder {
    count: usize,  // total count of lottery ticket
    name: Option<String>,
    id: Option<Uuid>,
}

impl<'a> SinglePrizeUser<'a> {
    pub closed spec fn count_view(&self) -> nat {
        self.count as nat
    }

    pub closed spec fn name_view(&self) -> Seq<char> {
        self.name@
    }

    pub closed spec fn id_view(&self) -> Uuid {
        self.id
    }

    /// The prize won, if any.
    pub closed spec fn prize_view(&self) -> Option<&'a Prize> {
        self.prize
    }

    pub fn new(id: Uuid, name: String, ticket_count: usize) -> (e: Self)
        ensures
            e.id_view() == id,
            e.name_view() == name@,
            e.count_view() == ticket_count,
            e.prize_view() is None,
    {
        Self { count: ticket_count, name, id, prize: None }
    }

    pub fn prize(&self) -> (r: Option<&Prize>)
        ensures
            r == self.prize_view(),
    {
        self.prize
    }

    pub fn name(&self) -> (r: &str)
        ensures
            r@ == self.name_view(),
    {
        self.name.as_str()
    }
}

impl<'a> User<'a> for SinglePrizeUser<'a> {
    type Key = Uuid;

    open spec fn key_spec(&self) -> Uuid {
        self.id_view()
    }

    open spec fn tickets_spec(&self) -> usize {
        self.count_view() as usize
    }

    open spec fn accepts_spec(&self, prize: &'a Prize) -> bool {
        self.prize_view() is None
    }

    open spec fn takes_to(&self, prize: &'a Prize, after: Self) -> bool {
        &&& after.prize_view() == Some(prize)
        &&& after.id_view() == self.id_view()
        &&& after.name_view() == self.name_view()
        &&& after.count_view() == self.count_view()
    }

    fn key(&self) -> (k: Self::Key)
        ensures
            k == self.id_view(),
    {
        self.id
    }

    fn ticket_count(&self) -> (c: usize)
        ensures
            c == self.count_view(),
    {
        self.count
    }

    /// Takes the prize only when holding none yet.
    fn add_prize(&mut self, prize: &'a Prize) -> (accepted: bool)
        ensures
            accepted == (old(self).prize_view() is None),
            final(self).prize_view() == if accepted {
                Some(prize)
            } else {
                old(self).prize_view()
            },
            final(self).id_view() == old(self).id_view(),
            final(self).name_view() == old(self).name_view(),
            final(self).count_view() == old(self).count_view(),
    {
        if self.has_prize() {
            false
        } else {
            self.prize = Some(prize);
            true
        }
    }

    fn has_prize(&self) -> (r: bool)
        ensures
            r == (self.prize_view() is Some),
    {
        self.prize.is_some()
    }
}

impl<'a> MultiPrizeUser<'a> {
    pub closed spec fn count_view(&self) -> nat {
        self.count as nat
    }

    pub closed spec fn name_view(&self) -> Seq<char> {
        self.name@
    }

    pub closed spec fn id_view(&self) -> Uuid {
        self.id
    }

    /// The prizes won, in the order they were won.
    pub closed spec fn prizes_view(&self) -> Seq<&'a Prize> {
        self.prizes@
    }

    pub fn new(id: Uuid, name: String, ticket_count: usize) -> (e: Self)
        ensures
            e.id_view() == id,
            e.name_view() == name@,
            e.count_view() == ticket_count,
            e.prizes_view() == Seq::<&'a Prize>::empty(),
    {
        Self { count: ticket_count, name, id, prizes: Vec::new() }
    }

    pub fn prizes(&self) -> (r: &Vec<&Prize>)
        ensures
            r@ == self.prizes_view(),
    {
        &self.prizes
    }

    pub fn name(&self) -> (r: &str)
        ensures
            r@ == self.name_view(),
    {
        self.name.as_str()
    }
}

impl<'a> User<'a> for MultiPrizeUser<'a> {
    type Key = Uuid;

    open spec fn key_spec(&self) -> Uuid {
        self.id_view()
    }

    open spec fn tickets_spec(&self) -> usize {
        self.count_view() as usize
    }

    open spec fn accepts_spec(&self, prize: &'a Prize) -> bool {
        true
    }

    open spec fn takes_to(&self, prize: &'a Prize, after: Self) -> bool {
        &&& after.prizes_view() == self.prizes_view().push(prize)
        &&& after.id_view() == self.id_view()
        &&& after.name_view() == self.name_view()
        &&& after.count_view() == self.count_view()
    }

    fn key(&self) -> (k: Self::Key)
        ensures
            k == self.id_view(),
    {
        self.id
    }

    fn ticket_count(&self) -> (c: usize)
        ensures
            c == self.count_view(),
    {
        self.count
    }

    /// Takes every prize.
    fn add_prize(&mut self, prize: &'a Prize) -> (accepted: bool)
        ensures
            accepted,
            final(self).prizes_view() == old(self).prizes_view().push(prize),
            final(self).id_view() == old(self).id_view(),
            final(self).name_view() == old(self).name_view(),
            final(self).count_view() == old(self).count_view(),
    {
        self.prizes.push(prize);
        true
    }

    fn has_prize(&self) -> (r: bool)
        ensures
            r == (self.prizes_view().len() > 0),
    {
        !self.prizes.is_empty()
    }
}

impl Default for UserBuilder {
    fn default() -> (b: Self)
        ensures
            b.name_view() is None,
            b.id_view() is None,
            b.count_view() == 0,
    {
        Self::new()
    }
}

impl UserBuilder {
    pub closed spec fn count_view(&self) -> nat {
        self.count as nat
    }

    pub closed spec fn name_view(&self) -> Option<Seq<char>> {
        match self.name {
            Some(n) => Some(n@),
            None => None,
        }
    }

    pub closed spec fn id_view(&self) -> Option<Uuid> {
        self.id
    }

    pub fn new() -> (b: Self)
        ensures
            b.name_view() is None,
            b.id_view() is None,
            b.count_view() == 0,
    {
        Self { name: None, id: None, count: 0 }
    }

    pub fn name(self, name: String) -> (b: Self)
        ensures
            b.name_view() == Some(name@),
            b.id_view() == self.id_view(),
            b.count_view() == self.count_view(),
    {
        let mut this = self;
        this.name = Some(name);
        this
    }

    pub fn id(self, id: Uuid) -> (b: Self)
        ensures
            b.name_view() == self.name_view(),
            b.id_view() == Some(id),
            b.count_view() == self.count_view(),
    {
        let mut this = self;
        this.id = Some(id);
        this
    }

    pub fn ticket_count(self, count: usize) -> (b: Self)
        ensures
            b.name_view() == self.name_view(),
            b.id_view() == self.id_view(),
            b.count_view() == count,
    {
        let mut this = self;
        this.count = count;
        this
    }

    /// A user holding at most one prize; without a name the name is
    /// empty, and without an id a random one is drawn.
    pub fn build_single<'a>(self) -> (e: SinglePrizeUser<'a>)
        ensures
            e.count_view() == self.count_view(),
            e.name_view() == match self.name_view() {
                Some(n) => n,
                None => Seq::<char>::empty(),
            },
            self.id_view() matches Some(id) ==> e.id_view() == id,
            e.prize_view() is None,
    {
        let name = match self.name {
            Some(n) => n,
            None => String::new(),
        };
        let id = match self.id {
            Some(id) => id,
            None => fresh_uuid(),
        };
        SinglePrizeUser { count: self.count, name, id, prize: None }
    }

    /// A user holding any number of prizes; without a name the name is
    /// empty, and without an id a random one is drawn.
    pub fn build_multiple<'a>(self) -> (e: MultiPrizeUser<'a>)
        ensures
            e.count_view() == self.count_view(),
            e.name_view() == match self.name_view() {
                Some(n) => n,
                None => Seq::<char>::empty(),
            },
            self.id_view() matches Some(id) ==> e.id_view() == id,
            e.prizes_view() == Seq::<&'a Prize>::empty(),
    {
        let name = match self.name {
            Some(n) => n,
            None => String::new(),
        };
        let id = match self.id {
            Some(id) => id,
            None => fresh_uuid(),
        };
        MultiPrizeUser { count: self.count, name, id, prizes: Vec::new() }
    }
}

} // verus!
