use std::cell::RefCell;
use std::collections::BTreeSet;
use std::rc::Rc;

use lottery::prize::{Prize, PrizeBuilder};
use lottery::prize_queue::PrizeQueue;
use lottery::space_efficient_shuffler::SpaceEfficientShuffler;
use lottery::tickets::Tickets;
use lottery::user::User;

/// A user that takes one prize per ticket, and logs what it takes.
pub struct GenericUser<'p> {
    uuid: usize,
    tickets_count: usize,
    prizes: Vec<&'p Prize>,
    log: Rc<RefCell<Vec<&'p Prize>>>,
}

impl<'p> User<'p> for GenericUser<'p> {
    type Key = usize;
    fn key_spec(&self) -> usize {
        self.uuid
    }
    fn tickets_spec(&self) -> usize {
        self.tickets_count
    }
    fn accepts_spec(&self, _prize: &'p Prize) -> bool {
        self.tickets_count > 0
    }
    fn takes_to(&self, prize: &'p Prize, after: Self) -> bool {
        after.uuid == self.uuid
            && after.tickets_count + 1 == self.tickets_count
            && after.prizes.len() == self.prizes.len() + 1
            && after.prizes.last().is_some_and(|p| std::ptr::eq(*p, prize))
    }
    fn key(&self) -> Self::Key {
        self.uuid
    }
    fn add_prize(&mut self, prize: &'p Prize) -> bool {
        if self.tickets_count > 0 {
            self.prizes.push(prize);
            self.tickets_count -= 1;
            self.log.borrow_mut().push(prize);
            true
        } else {
            false
        }
    }
    fn ticket_count(&self) -> usize {
        self.tickets_count
    }
    fn has_prize(&self) -> bool {
        !self.prizes.is_empty()
    }
}

impl<'p> GenericUser<'p> {
    pub fn new(uuid: usize) -> (Self, Rc<RefCell<Vec<&'p Prize>>>) {
        Self::with_tickets_count(uuid, uuid)
    }

    pub fn with_tickets_count(uuid: usize, tickets_count: usize) -> (Self, Rc<RefCell<Vec<&'p Prize>>>) {
        let external_log = Rc::new(RefCell::new(vec![]));
        (
            Self {
                uuid,
                tickets_count,
                prizes: vec![],
                log: Rc::clone(&external_log),
            },
            external_log,
        )
    }
}

/// A user that takes at most one prize, and only while it has tickets.
pub struct CapacityOneUser<'p> {
    uuid: usize,
    tickets_count: usize,
    prize: Option<&'p Prize>,
    log: Rc<RefCell<Vec<&'p Prize>>>,
}

impl<'p> User<'p> for CapacityOneUser<'p> {
    type Key = usize;
    fn key_spec(&self) -> usize {
        self.uuid
    }
    fn tickets_spec(&self) -> usize {
        self.tickets_count
    }
    fn accepts_spec(&self, _prize: &'p Prize) -> bool {
        self.tickets_count > 0 && self.prize.is_none()
    }
    fn takes_to(&self, prize: &'p Prize, after: Self) -> bool {
        after.uuid == self.uuid
            && after.tickets_count + 1 == self.tickets_count
            && after.prize.is_some_and(|p| std::ptr::eq(p, prize))
    }
    fn key(&self) -> Self::Key {
        self.uuid
    }
    fn add_prize(&mut self, prize: &'p Prize) -> bool {
        if self.tickets_count > 0 && self.prize.is_none() {
            self.prize = Some(prize);
            self.tickets_count -= 1;
            self.log.borrow_mut().push(prize);
            true
        } else {
            false
        }
    }
    fn ticket_count(&self) -> usize {
        self.tickets_count
    }
    fn has_prize(&self) -> bool {
        self.prize.is_some()
    }
}

impl<'p> CapacityOneUser<'p> {
    pub fn new(uuid: usize) -> (Self, Rc<RefCell<Vec<&'p Prize>>>) {
        Self::with_tickets_count(uuid, uuid)
    }

    pub fn with_tickets_count(uuid: usize, tickets_count: usize) -> (Self, Rc<RefCell<Vec<&'p Prize>>>) {
        let external_log = Rc::new(RefCell::new(vec![]));
        (
            Self {
                uuid,
                tickets_count,
                prize: None,
                log: Rc::clone(&external_log),
            },
            external_log,
        )
    }
}

fn numbered_prizes(max_prize_count: usize) -> (Vec<Prize>, usize) {
    let mut n = 0;
    let ret = Vec::from_iter((0..max_prize_count).map(|x| {
        n += x;
        PrizeBuilder::new().count(x).name(format!("{x}")).build()
    }));
    (ret, n)
}

#[test]
fn test_space_efficient_shuffler_few_users() {
    let mut rng = rand::rng();
    const MAX_PRIZE_COUNT: usize = 100;
    const NUM_USERS: usize = 1;
    let prizes =
        Vec::from_iter((0..MAX_PRIZE_COUNT).map(|x| PrizeBuilder::new().count(x).name(format!("{x}")).build()));
    {
        // A single user which doesn't hold any tickets
        let (mut users, log) = (0..NUM_USERS).map(CapacityOneUser::new).collect::<(Vec<_>, Vec<_>)>();
        let mut ses = SpaceEfficientShuffler::from_users(&users).unwrap();
        let mut prizes = PrizeQueue::each_once(&prizes);
        let num_iterations = (1..)
            .take_while(|_| ses.try_draw_one_user(&mut users, &mut rng, &mut prizes))
            .last()
            .unwrap_or(0);
        assert!(log.into_iter().all(|prizes_of_user| prizes_of_user.borrow().is_empty()));
        // draw, discovering that the user invalid, abort.
        // this shows when few users/tickets, we finish quickly
        assert_eq!(num_iterations, 0);
    }
    {
        // A single user which holds exactly one ticket
        let (mut users, log) = (1..=NUM_USERS).map(CapacityOneUser::new).collect::<(Vec<_>, Vec<_>)>();
        let mut ses = SpaceEfficientShuffler::from_users(&users).unwrap();
        let mut prizes = PrizeQueue::each_once(&prizes);
        let num_iterations = (1..)
            .take_while(|_| ses.try_draw_one_user(&mut users, &mut rng, &mut prizes))
            .last()
            .unwrap_or(0);
        assert_eq!(
            log.into_iter()
                .map(|prizes_of_user| prizes_of_user.borrow().len())
                .sum::<usize>(),
            1
        );
        // draw, ok.
        // draw, discovering that the user invalid, abort.
        // this shows when few users/tickets, we finish quickly
        assert_eq!(num_iterations, 1)
    }
}

#[test]
fn test_space_efficient_shuffler_capacity_one_user() {
    let mut rng = rand::rng();
    const MAX_PRIZE_COUNT: usize = 100;
    const NUM_USERS: usize = 65536;
    let prizes =
        Vec::from_iter((0..MAX_PRIZE_COUNT).map(|x| PrizeBuilder::new().count(x).name(format!("{x}")).build()));
    let (mut users, log) = (0..NUM_USERS).map(CapacityOneUser::new).collect::<(Vec<_>, Vec<_>)>();
    let mut ses = SpaceEfficientShuffler::from_users(&users).unwrap();
    let mut prizes = PrizeQueue::each_once(&prizes);
    while ses.try_draw_one_user(&mut users, &mut rng, &mut prizes) {}
    assert_eq!(
        BTreeSet::from_iter(log.into_iter().flat_map(|prizes_of_user| {
            let prizes_of_user = prizes_of_user.borrow();
            assert!(prizes_of_user.len() <= 1);
            prizes_of_user.iter().next().map(|p| p.name()).map(String::from)
        })),
        BTreeSet::from_iter((0..MAX_PRIZE_COUNT).map(|x| format!("{x}")))
    );
}

#[test]
fn tickets_test_space_efficient_shuffler() {
    let mut rng = rand::rng();
    const MAX_PRIZE_COUNT: usize = 100;
    const NUM_USERS: usize = 65536;
    let (prizes, num_prizes) = numbered_prizes(MAX_PRIZE_COUNT);
    let (users, log) = (0..NUM_USERS).map(GenericUser::new).collect::<(Vec<_>, Vec<_>)>();
    let mut tickets = Tickets::new();
    prizes.into_iter().for_each(|p| tickets.add_prize(p));
    users.into_iter().for_each(|u| {
        tickets.add_user(u);
    });
    tickets.shuffle_tree(&mut rng);
    assert_eq!(log.iter().map(|u| u.borrow().len()).sum::<usize>(), num_prizes);
    (0..MAX_PRIZE_COUNT).for_each(|i| {
        let name = &format!("{i}");
        assert_eq!(
            log.iter()
                .map(|rc| &**rc)
                .map(RefCell::borrow)
                .map(|v| v.as_slice().iter().filter(|p| p.name() == name).count())
                .sum::<usize>(),
            i
        )
    });
}

#[test]
fn tickets_shuffle_array_hands_out_every_item() {
    let mut rng = rand::rng();
    let (prizes, num_prizes) = numbered_prizes(30);
    let (users, log) = (0..200).map(GenericUser::new).collect::<(Vec<_>, Vec<_>)>();
    let mut tickets = Tickets::new();
    tickets.set_prizes(prizes);
    tickets.set_users(users);
    tickets.shuffle_array(&mut rng);
    assert_eq!(log.iter().map(|u| u.borrow().len()).sum::<usize>(), num_prizes);
}

#[test]
fn tickets_shuffle_array_one_prize_each() {
    let mut rng = rand::rng();
    let prizes = vec![PrizeBuilder::new().count(25).name(String::from("cup")).build()];
    let (users, log) = (0..10)
        .map(|u| CapacityOneUser::with_tickets_count(u, 3))
        .collect::<(Vec<_>, Vec<_>)>();
    let mut tickets = Tickets::new();
    tickets.set_prizes(prizes);
    tickets.set_users(users);
    tickets.shuffle_array(&mut rng);
    assert!(log.iter().all(|l| l.borrow().len() == 1));
}

#[test]
fn tickets_shuffle_by_estimate() {
    // few tickets: the estimate picks the tree
    let mut rng = rand::rng();
    let (prizes, num_prizes) = numbered_prizes(5);
    let (users, log) = (0..64)
        .map(|u| GenericUser::with_tickets_count(u, 1))
        .collect::<(Vec<_>, Vec<_>)>();
    let mut tickets = Tickets::new();
    tickets.set_prizes(prizes);
    tickets.set_users(users);
    tickets.shuffle(&mut rng);
    assert_eq!(log.iter().map(|u| u.borrow().len()).sum::<usize>(), num_prizes);
}

#[test]
fn tickets_shuffle_by_estimate_array() {
    // many tickets: the estimate picks the shuffled slots
    let mut rng = rand::rng();
    let (prizes, num_prizes) = numbered_prizes(10);
    let (users, log) = (0..8)
        .map(|u| GenericUser::with_tickets_count(u, 1000))
        .collect::<(Vec<_>, Vec<_>)>();
    let mut tickets = Tickets::new();
    tickets.set_prizes(prizes);
    tickets.set_users(users);
    tickets.shuffle(&mut rng);
    assert_eq!(log.iter().map(|u| u.borrow().len()).sum::<usize>(), num_prizes);
}

#[test]
fn tickets_new_is_empty_and_not_shuffled() {
    let tickets: Tickets<usize, GenericUser> = Tickets::new();
    assert!(!tickets.shuffled());
    assert_eq!(tickets.users().count(), 0);
    let tickets: Tickets<usize, GenericUser> = Tickets::default();
    assert!(!tickets.shuffled());
    let tickets: Tickets<usize, GenericUser> = Tickets::with_user_capacity(8);
    assert_eq!(tickets.users().count(), 0);
    let tickets: Tickets<usize, GenericUser> =
        Tickets::with_hasher(std::collections::hash_map::RandomState::new());
    assert_eq!(tickets.users().count(), 0);
    let tickets: Tickets<usize, GenericUser> =
        Tickets::with_user_capacity_and_hasher(8, std::collections::hash_map::RandomState::new());
    assert!(!tickets.shuffled());
}

#[test]
fn tickets_add_user_returns_the_replaced_one() {
    let mut tickets = Tickets::new();
    assert!(tickets.add_user(GenericUser::with_tickets_count(4, 1).0).is_none());
    let replaced = tickets.add_user(GenericUser::with_tickets_count(4, 6).0).expect("same key");
    assert_eq!(replaced.ticket_count(), 1);
    assert_eq!(tickets.users().map(|u| u.ticket_count()).collect::<Vec<_>>(), vec![6]);
    for u in tickets.users_mut() {
        let prize: &'static Prize = Box::leak(Box::new(PrizeBuilder::new().build()));
        assert!(u.add_prize(prize));
    }
    assert!(tickets.users().all(|u| u.has_prize() && u.ticket_count() == 5));
}
