use std::cell::RefCell;
use std::rc::Rc;

use lottery::entrant::Entrant;
use lottery::lottery::Lottery;
use lottery::prize::{Prize, PrizeBuilder};

/// An entrant that takes one prize per ticket, and logs what it takes.
pub struct GenericEntrant<'p> {
    uuid: usize,
    tickets_count: usize,
    prizes: Vec<&'p Prize>,
    log: Rc<RefCell<Vec<&'p Prize>>>,
}

impl<'p> Entrant<'p> for GenericEntrant<'p> {
    type Key = usize;
    fn key_spec(&self) -> usize {
        self.uuid
    }
    fn tickets_spec(&self) -> usize {
        self.tickets_count
    }
    fn accepts_spec(&self, _prize: &'p Prize) -> bool {
        self.tickets_count > 0
    }
    fn takes_to(&self, prize: &'p Prize, after: Self) -> bool {
        after.uuid == self.uuid
            && after.tickets_count + 1 == self.tickets_count
            && after.prizes.len() == self.prizes.len() + 1
            && after.prizes.last().is_some_and(|p| std::ptr::eq(*p, prize))
    }
    fn key(&self) -> Self::Key {
        self.uuid
    }
    fn add_prize(&mut self, prize: &'p Prize) -> bool {
        if self.tickets_count > 0 {
            self.prizes.push(prize);
            self.tickets_count -= 1;
            self.log.borrow_mut().push(prize);
            true
        } else {
            false
        }
    }
    fn ticket_count(&self) -> usize {
        self.tickets_count
    }
    fn has_prize(&self) -> bool {
        !self.prizes.is_empty()
    }
}

impl<'p> GenericEntrant<'p> {
    pub fn new(uuid: usize) -> (Self, Rc<RefCell<Vec<&'p Prize>>>) {
        Self::with_tickets_count(uuid, uuid)
    }

    pub fn with_tickets_count(uuid: usize, tickets_count: usize) -> (Self, Rc<RefCell<Vec<&'p Prize>>>) {
        let external_log = Rc::new(RefCell::new(vec![]));
        (
            Self {
                uuid,
                tickets_count,
                prizes: vec![],
                log: Rc::clone(&external_log),
            },
            external_log,
        )
    }
}

/// An entrant that takes at most one prize, and only while it has tickets.
pub struct CapacityOneEntrant<'p> {
    uuid: usize,
    tickets_count: usize,
    prize: Option<&'p Prize>,
    log: Rc<RefCell<Vec<&'p Prize>>>,
}

impl<'p> Entrant<'p> for CapacityOneEntrant<'p> {
    type Key = usize;
    fn key_spec(&self) -> usize {
        self.uuid
    }
    fn tickets_spec(&self) -> usize {
        self.tickets_count
    }
    fn accepts_spec(&self, _prize: &'p Prize) -> bool {
        self.tickets_count > 0 && self.prize.is_none()
    }
    fn takes_to(&self, prize: &'p Prize, after: Self) -> bool {
        after.uuid == self.uuid
            && after.tickets_count + 1 == self.tickets_count
            && after.prize.is_some_and(|p| std::ptr::eq(p, prize))
    }
    fn key(&self) -> Self::Key {
        self.uuid
    }
    fn add_prize(&mut self, prize: &'p Prize) -> bool {
        if self.tickets_count > 0 && self.prize.is_none() {
            self.prize = Some(prize);
            self.tickets_count -= 1;
            self.log.borrow_mut().push(prize);
            true
        } else {
            false
        }
    }
    fn ticket_count(&self) -> usize {
        self.tickets_count
    }
    fn has_prize(&self) -> bool {
        self.prize.is_some()
    }
}

impl<'p> CapacityOneEntrant<'p> {
    pub fn with_tickets_count(uuid: usize, tickets_count: usize) -> (Self, Rc<RefCell<Vec<&'p Prize>>>) {
        let external_log = Rc::new(RefCell::new(vec![]));
        (
            Self {
                uuid,
                tickets_count,
                prize: None,
                log: Rc::clone(&external_log),
            },
            external_log,
        )
    }
}

fn numbered_prizes(max_prize_count: usize) -> (Vec<Prize>, usize) {
    let mut n = 0;
    let ret = Vec::from_iter((0..max_prize_count).map(|x| {
        n += x;
        PrizeBuilder::new().count(x).name(format!("{x}")).build()
    }));
    (ret, n)
}

fn count_named(log: &[Rc<RefCell<Vec<&Prize>>>], name: &str) -> usize {
    log.iter()
        .map(|rc| &**rc)
        .map(RefCell::borrow)
        .map(|v| v.as_slice().iter().filter(|p| p.name() == name).count())
        .sum::<usize>()
}

#[test]
fn lottery_test_space_efficient_shuffler() {
    let mut rng = rand::rng();
    const MAX_PRIZE_COUNT: usize = 100;
    const NUM_ENTRANTS: usize = 65536;
    let (prizes, num_prizes) = numbered_prizes(MAX_PRIZE_COUNT);
    let (entrants, log) = (0..NUM_ENTRANTS).map(GenericEntrant::new).collect::<(Vec<_>, Vec<_>)>();
    let mut tickets = Lottery::new();
    prizes.into_iter().for_each(|p| tickets.add_prize(p));
    entrants.into_iter().for_each(|u| {
        tickets.add_entrant(u);
    });
    tickets.shuffle_tree(&mut rng);
    assert_eq!(log.iter().map(|u| u.borrow().len()).sum::<usize>(), num_prizes);
    (0..MAX_PRIZE_COUNT).for_each(|i| {
        let name = &format!("{i}");
        assert_eq!(count_named(&log, name), i)
    });
}

#[test]
fn lottery_shuffle_array_hands_out_every_item() {
    let mut rng = rand::rng();
    const MAX_PRIZE_COUNT: usize = 30;
    const NUM_ENTRANTS: usize = 200;
    let (prizes, num_prizes) = numbered_prizes(MAX_PRIZE_COUNT);
    let (entrants, log) = (0..NUM_ENTRANTS).map(GenericEntrant::new).collect::<(Vec<_>, Vec<_>)>();
    let mut lottery = Lottery::new();
    lottery.set_prizes(prizes);
    lottery.set_entrants(entrants);
    lottery.shuffle_array(&mut rng);
    assert_eq!(log.iter().map(|u| u.borrow().len()).sum::<usize>(), num_prizes);
    (0..MAX_PRIZE_COUNT).for_each(|i| {
        let name = &format!("{i}");
        assert_eq!(count_named(&log, name), i)
    });
}

#[test]
fn lottery_shuffle_array_one_prize_each() {
    // ten entrants with three tickets each, but each takes one prize only
    let mut rng = rand::rng();
    let prizes = vec![PrizeBuilder::new().count(25).name(String::from("mug")).build()];
    let (entrants, log) = (0..10)
        .map(|u| CapacityOneEntrant::with_tickets_count(u, 3))
        .collect::<(Vec<_>, Vec<_>)>();
    let mut lottery = Lottery::new();
    lottery.set_prizes(prizes);
    lottery.set_entrants(entrants);
    lottery.shuffle_array(&mut rng);
    assert!(log.iter().all(|l| l.borrow().len() == 1));
    assert_eq!(count_named(&log, "mug"), 10);
}

#[test]
fn lottery_shuffle_by_estimate_hands_out_every_item() {
    // few tickets: the estimate picks the shuffled slots
    let mut rng = rand::rng();
    let (prizes, num_prizes) = numbered_prizes(5);
    let (entrants, log) = (0..64)
        .map(|u| GenericEntrant::with_tickets_count(u, 1))
        .collect::<(Vec<_>, Vec<_>)>();
    let mut lottery = Lottery::new();
    lottery.set_prizes(prizes);
    lottery.set_entrants(entrants);
    lottery.shuffle(&mut rng);
    assert_eq!(log.iter().map(|u| u.borrow().len()).sum::<usize>(), num_prizes);
    assert!(log.iter().all(|l| l.borrow().len() <= 1));
}

#[test]
fn lottery_shuffle_by_estimate_tree() {
    // many tickets: the estimate picks the tree
    let mut rng = rand::rng();
    let (prizes, num_prizes) = numbered_prizes(10);
    let (entrants, log) = (0..8)
        .map(|u| GenericEntrant::with_tickets_count(u, 1000))
        .collect::<(Vec<_>, Vec<_>)>();
    let mut lottery = Lottery::new();
    lottery.set_prizes(prizes);
    lottery.set_entrants(entrants);
    lottery.shuffle(&mut rng);
    assert_eq!(log.iter().map(|u| u.borrow().len()).sum::<usize>(), num_prizes);
}

#[test]
fn lottery_more_items_than_tickets() {
    let mut rng = rand::rng();
    let prizes = vec![PrizeBuilder::new().count(50).name(String::from("pen")).build()];
    let (entrants, log) = (0..4)
        .map(|u| GenericEntrant::with_tickets_count(u, 2))
        .collect::<(Vec<_>, Vec<_>)>();
    let mut lottery = Lottery::new();
    lottery.set_prizes(prizes);
    lottery.set_entrants(entrants);
    lottery.shuffle_tree(&mut rng);
    assert!(log.iter().all(|l| l.borrow().len() == 2));
}

#[test]
fn lottery_new_is_empty_and_not_shuffled() {
    let lottery: Lottery<usize, GenericEntrant> = Lottery::new();
    assert!(!lottery.shuffled());
    assert_eq!(lottery.entrants().count(), 0);
    let lottery: Lottery<usize, GenericEntrant> = Lottery::default();
    assert!(!lottery.shuffled());
    let lottery: Lottery<usize, GenericEntrant> = Lottery::with_entrant_capacity(16);
    assert_eq!(lottery.entrants().count(), 0);
    let lottery: Lottery<usize, GenericEntrant> =
        Lottery::with_hasher(std::collections::hash_map::RandomState::new());
    assert!(!lottery.shuffled());
    let lottery: Lottery<usize, GenericEntrant> =
        Lottery::with_entrant_capacity_and_hasher(4, std::collections::hash_map::RandomState::new());
    assert_eq!(lottery.entrants().count(), 0);
}

#[test]
fn lottery_add_entrant_returns_the_replaced_one() {
    let mut lottery = Lottery::new();
    let (first, _) = GenericEntrant::with_tickets_count(7, 1);
    let (second, _) = GenericEntrant::with_tickets_count(7, 5);
    let (other, _) = GenericEntrant::with_tickets_count(8, 2);
    assert!(lottery.add_entrant(first).is_none());
    assert!(lottery.add_entrant(other).is_none());
    let replaced = lottery.add_entrant(second).expect("same key");
    assert_eq!(replaced.ticket_count(), 1);
    assert_eq!(lottery.entrants().count(), 2);
    let mut counts: Vec<usize> = lottery.entrants().map(|e| e.ticket_count()).collect();
    counts.sort();
    assert_eq!(counts, vec![2, 5]);
}

#[test]
fn lottery_set_entrants_keeps_the_last_of_a_key() {
    let mut lottery = Lottery::new();
    let entrants = vec![
        GenericEntrant::with_tickets_count(1, 1).0,
        GenericEntrant::with_tickets_count(2, 2).0,
        GenericEntrant::with_tickets_count(1, 3).0,
    ];
    lottery.set_entrants(entrants);
    let mut counts: Vec<usize> = lottery.entrants().map(|e| e.ticket_count()).collect();
    counts.sort();
    assert_eq!(counts, vec![2, 3]);
    // setting again replaces everything
    lottery.set_entrants(vec![GenericEntrant::with_tickets_count(9, 9).0]);
    assert_eq!(lottery.entrants().map(|e| e.ticket_count()).collect::<Vec<_>>(), vec![9]);
}

#[test]
fn lottery_entrants_mut_changes_in_place() {
    let mut lottery = Lottery::new();
    lottery.add_entrant(GenericEntrant::with_tickets_count(3, 1).0);
    for e in lottery.entrants_mut() {
        let prize: &'static Prize = Box::leak(Box::new(PrizeBuilder::new().build()));
        assert!(e.add_prize(prize));
    }
    assert!(lottery.entrants().all(|e| e.has_prize() && e.ticket_count() == 0));
}

fn winner_of_one_item(by_tree: bool) -> usize {
    let mut rng = rand::rng();
    let prizes = vec![PrizeBuilder::new().name(String::from("only")).build()];
    let (entrants, log) = (0..10)
        .map(|u| GenericEntrant::with_tickets_count(u, 1))
        .collect::<(Vec<_>, Vec<_>)>();
    let hasher: std::hash::BuildHasherDefault<std::collections::hash_map::DefaultHasher> = Default::default();
    let mut lottery = Lottery::with_hasher(hasher);
    lottery.set_prizes(prizes);
    lottery.set_entrants(entrants);
    if by_tree {
        lottery.shuffle_tree(&mut rng);
    } else {
        lottery.shuffle_array(&mut rng);
    }
    let winners: Vec<usize> = (0..10).filter(|&u| !log[u].borrow().is_empty()).collect();
    assert_eq!(winners.len(), 1);
    winners[0]
}

#[test]
fn lottery_shuffle_array_draws_different_winners() {
    // the map's order is fixed by its hasher, so only the shuffle varies the winner
    let winners: std::collections::BTreeSet<usize> = (0..60).map(|_| winner_of_one_item(false)).collect();
    assert!(winners.len() > 1);
}

#[test]
fn lottery_shuffle_tree_draws_different_winners() {
    let winners: std::collections::BTreeSet<usize> = (0..60).map(|_| winner_of_one_item(true)).collect();
    assert!(winners.len() > 1);
}
