use std::cell::RefCell;
use std::collections::BTreeSet;
use std::rc::Rc;

use lottery::entrant::Entrant;
use lottery::prize::{Prize, PrizeBuilder};
use lottery::prize_queue::PrizeQueue;
use lottery::space_efficient_shuffler::SpaceEfficientShuffler;
use rand::SeedableRng;

/// An entrant that takes at most one prize, and only while it has tickets.

pub struct CapacityOneEntrant<'p> {
    uuid: usize,
    tickets_count: usize,
    pub prize: Option<&'p Prize>,
    log: Rc<RefCell<Vec<&'p Prize>>>,
}

impl<'p> Entrant<'p> for CapacityOneEntrant<'p> {
    type Key = usize;
    fn key_spec(&self) -> usize {
        self.uuid
    }
    fn tickets_spec(&self) -> usize {
        self.tickets_count
    }
    fn accepts_spec(&self, _prize: &'p Prize) -> bool {
        self.tickets_count > 0 && self.prize.is_none()
    }
    fn takes_to(&self, prize: &'p Prize, after: Self) -> bool {
        after.uuid == self.uuid
            && after.tickets_count + 1 == self.tickets_count
            && after.prize.is_some_and(|p| std::ptr::eq(p, prize))
    }
    fn key(&self) -> Self::Key {
        self.uuid
    }
    fn add_prize(&mut self, prize: &'p Prize) -> bool {
        if self.tickets_count > 0 && self.prize.is_none() {
            self.prize = Some(prize);
            self.tickets_count -= 1;
            self.log.borrow_mut().push(prize);
            true
        } else {
            false
        }
    }
    fn ticket_count(&self) -> usize {
        self.tickets_count
    }
    fn has_prize(&self) -> bool {
        self.prize.is_some()
    }
}

impl<'p> CapacityOneEntrant<'p> {
    pub fn new(uuid: usize) -> (Self, Rc<RefCell<Vec<&'p Prize>>>) {
        let external_log = Rc::new(RefCell::new(vec![]));
        (
            Self {
                uuid,
                tickets_count: uuid,
                prize: None,
                log: Rc::clone(&external_log),
            },
            external_log,
        )
    }

    pub fn with_tickets_count(uuid: usize, tickets_count: usize) -> (Self, Rc<RefCell<Vec<&'p Prize>>>) {
        let external_log = Rc::new(RefCell::new(vec![]));
        (
            Self {
                uuid,
                tickets_count,
                prize: None,
                log: Rc::clone(&external_log),
            },
            external_log,
        )
    }
}

#[test]
fn test_space_efficient_shuffler_few_entrants() {
    let mut rng = rand::rng();
    const MAX_PRIZE_COUNT: usize = 100;
    const NUM_ENTRANTS: usize = 1;
    let prizes =
        Vec::from_iter((0..MAX_PRIZE_COUNT).map(|x| PrizeBuilder::new().count(x).name(format!("{x}")).build()));
    {
        // A single entrant which doesn't hold any tickets
        let (mut entrants, log) = (0..NUM_ENTRANTS)
            .map(CapacityOneEntrant::new)
            .collect::<(Vec<_>, Vec<_>)>();
        let mut ses = SpaceEfficientShuffler::new(&entrants).unwrap();
        let mut prizes = PrizeQueue::each_once(&prizes);
        let num_iterations = (1..)
            .take_while(|_| ses.try_draw_one(&mut entrants, &mut rng, &mut prizes))
            .last()
            .unwrap_or(0);
        assert!(
            log.into_iter()
                .all(|prizes_of_entrant| prizes_of_entrant.borrow().is_empty())
        );
        // draw, discovering that the entrant invalid, abort.
        // this shows when few entrants/tickets, we finish quickly
        assert_eq!(num_iterations, 0);
    }
    {
        // A single entrant which holds exactly one ticket
        let (mut entrants, log) = (1..=NUM_ENTRANTS)
            .map(CapacityOneEntrant::new)
            .collect::<(Vec<_>, Vec<_>)>();
        let mut ses = SpaceEfficientShuffler::new(&entrants).unwrap();
        let mut prizes = PrizeQueue::each_once(&prizes);
        let num_iterations = (1..)
            .take_while(|_| ses.try_draw_one(&mut entrants, &mut rng, &mut prizes))
            .last()
            .unwrap_or(0);
        assert_eq!(
            log.into_iter()
                .map(|prizes_of_entrant| prizes_of_entrant.borrow().len())
                .sum::<usize>(),
            1
        );
        // draw, ok.
        // draw, discovering that the entrant invalid, abort.
        // this shows when few entrants/tickets, we finish quickly
        assert_eq!(num_iterations, 1)
    }
}

#[test]
fn test_space_efficient_shuffler_capacity_one_entrant() {
    let mut rng = rand::rng();
    const MAX_PRIZE_COUNT: usize = 100;
    const NUM_ENTRANTS: usize = 65536;
    let prizes =
        Vec::from_iter((0..MAX_PRIZE_COUNT).map(|x| PrizeBuilder::new().count(x).name(format!("{x}")).build()));
    let (mut entrants, log) = (0..NUM_ENTRANTS)
        .map(CapacityOneEntrant::new)
        .collect::<(Vec<_>, Vec<_>)>();
    let mut ses = SpaceEfficientShuffler::new(&entrants).unwrap();
    let mut prizes = PrizeQueue::each_once(&prizes);
    while ses.try_draw_one(&mut entrants, &mut rng, &mut prizes) {}
    assert_eq!(
        BTreeSet::from_iter(log.into_iter().flat_map(|prizes_of_entrant| {
            let prizes_of_entrant = prizes_of_entrant.borrow();
            assert!(prizes_of_entrant.len() <= 1);
            prizes_of_entrant.iter().next().map(|p| p.name()).map(String::from)
        })),
        BTreeSet::from_iter((0..MAX_PRIZE_COUNT).map(|x| format!("{x}")))
    );
}

#[test]
fn test_space_efficient_shuffler_skewed_tickets() {
    const MAX_PRIZE_COUNT: usize = 10;
    const NUM_ENTRANTS: usize = MAX_PRIZE_COUNT + 1;
    const NORMAL_ENTRANT_TICKET_COUNT: usize = 1000;
    let mut rng = rand::rngs::SmallRng::seed_from_u64(1); // use small rng with seed to guarantee(?) the result would be the same.
    let poor_index = 0;
    let prizes =
        Vec::from_iter((0..MAX_PRIZE_COUNT).map(|x| PrizeBuilder::new().count(1).name(format!("{x}")).build()));
    // set the first entrant would always not have the prize
    let (mut entrants, log) = (0..NUM_ENTRANTS)
        .map(|u| {
            CapacityOneEntrant::with_tickets_count(
                u,
                if u == poor_index {
                    1
                } else {
                    NORMAL_ENTRANT_TICKET_COUNT
                },
            )
        })
        .collect::<(Vec<_>, Vec<_>)>();
    assert_eq!(
        entrants.iter().map(|u| u.ticket_count()).sum::<usize>(),
        (NUM_ENTRANTS - 1) * NORMAL_ENTRANT_TICKET_COUNT + 1
    );
    assert_eq!(entrants.iter().filter(|u| u.has_prize()).count(), 0);
    assert_eq!(prizes.iter().map(|p| p.count()).sum::<usize>(), MAX_PRIZE_COUNT);
    assert_eq!(entrants.len(), NUM_ENTRANTS);
    {
        let mut ses = SpaceEfficientShuffler::new(&entrants).unwrap();
        assert_eq!(ses.num_nodes(), NUM_ENTRANTS * 2 - 1);
        let mut prizes = PrizeQueue::each_once(&prizes);
        while ses.try_draw_one(&mut entrants, &mut rng, &mut prizes) {}
        assert_eq!(
            BTreeSet::from_iter(log.into_iter().flat_map(|prizes_of_entrant| {
                let prizes_of_entrant = prizes_of_entrant.borrow();
                assert!(prizes_of_entrant.len() <= 1);
                prizes_of_entrant.iter().next().map(|p| p.name()).map(String::from)
            })),
            BTreeSet::from_iter((0..MAX_PRIZE_COUNT).map(|x| format!("{x}")))
        );
    }
    assert_eq!(entrants.len(), NUM_ENTRANTS);
    assert_eq!(entrants.iter().filter(|u| u.has_prize()).count(), NUM_ENTRANTS - 1);
    assert!(entrants.iter().any(|u| u.key() == poor_index));
    assert_eq!(entrants.iter().find(|u| !u.has_prize()).unwrap().key(), poor_index);
    assert!(!entrants.iter().find(|u| u.key() == poor_index).unwrap().has_prize());
}
