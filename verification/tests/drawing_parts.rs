use std::cell::RefCell;
use std::rc::Rc;

use lottery::heap_tree::floor_log2_of;
use lottery::prize::{Prize, PrizeBuilder};
use lottery::prize_queue::PrizeQueue;
use lottery::space_efficient_shuffler::{checked_total, RandomPicker, SpaceEfficientShuffler};
use lottery::user::User;

/// A user that takes one prize per ticket, and logs what it takes.
pub struct CountingUser<'p> {
    uuid: usize,
    tickets_count: usize,
    log: Rc<RefCell<Vec<&'p Prize>>>,
}

impl<'p> User<'p> for CountingUser<'p> {
    type Key = usize;
    fn key_spec(&self) -> usize {
        self.uuid
    }
    fn tickets_spec(&self) -> usize {
        self.tickets_count
    }
    fn accepts_spec(&self, _prize: &'p Prize) -> bool {
        self.tickets_count > 0
    }
    fn takes_to(&self, prize: &'p Prize, after: Self) -> bool {
        after.uuid == self.uuid && after.tickets_count + 1 == self.tickets_count
    }
    fn key(&self) -> Self::Key {
        self.uuid
    }
    fn add_prize(&mut self, prize: &'p Prize) -> bool {
        if self.tickets_count > 0 {
            self.tickets_count -= 1;
            self.log.borrow_mut().push(prize);
            true
        } else {
            false
        }
    }
    fn ticket_count(&self) -> usize {
        self.tickets_count
    }
    fn has_prize(&self) -> bool {
        !self.log.borrow().is_empty()
    }
}

fn counting_user<'p>(uuid: usize, tickets_count: usize) -> (CountingUser<'p>, Rc<RefCell<Vec<&'p Prize>>>) {
    let log = Rc::new(RefCell::new(vec![]));
    (CountingUser { uuid, tickets_count, log: Rc::clone(&log) }, log)
}

#[test]
fn floor_log2_values() {
    assert_eq!(floor_log2_of(1), 0);
    assert_eq!(floor_log2_of(2), 1);
    assert_eq!(floor_log2_of(3), 1);
    assert_eq!(floor_log2_of(4), 2);
    assert_eq!(floor_log2_of(65535), 15);
    assert_eq!(floor_log2_of(65536), 16);
    assert_eq!(floor_log2_of(usize::MAX), (usize::BITS - 1) as usize);
}

#[test]
fn checked_total_values() {
    assert_eq!(checked_total(&vec![]), Some(0));
    assert_eq!(checked_total(&vec![1, 2, 3]), Some(6));
    assert_eq!(checked_total(&vec![usize::MAX, 0]), Some(usize::MAX));
    assert_eq!(checked_total(&vec![usize::MAX, 1]), None);
}

#[test]
fn tree_sizes() {
    // one leaf per positive count, one internal node less
    assert_eq!(SpaceEfficientShuffler::from_ticket_counts(&vec![3, 0, 5, 1]).num_nodes(), 5);
    assert_eq!(SpaceEfficientShuffler::from_ticket_counts(&vec![0, 0]).num_nodes(), 0);
    assert_eq!(SpaceEfficientShuffler::from_ticket_counts(&vec![7]).num_nodes(), 1);
    assert!(SpaceEfficientShuffler::try_from_ticket_counts(&vec![usize::MAX, 1]).is_none());
    assert_eq!(
        SpaceEfficientShuffler::try_from_ticket_counts(&vec![1, 1, 1]).map(|s| s.num_nodes()),
        Some(5)
    );
}

#[test]
fn prize_queue_orders() {
    let prizes = vec![
        PrizeBuilder::new().count(2).name(String::from("a")).build(),
        PrizeBuilder::new().count(0).name(String::from("b")).build(),
        PrizeBuilder::new().count(1).name(String::from("c")).build(),
    ];
    let mut by_count = PrizeQueue::by_count(&prizes);
    let mut seen = vec![];
    while let Some(p) = by_count.peek() {
        seen.push(p.name());
        by_count.advance();
    }
    assert_eq!(seen, vec!["a", "a", "c"]);
    let mut each_once = PrizeQueue::each_once(&prizes);
    let mut seen = vec![];
    while let Some(p) = each_once.peek() {
        seen.push(p.name());
        each_once.advance();
    }
    assert_eq!(seen, vec!["a", "b", "c"]);
}

#[test]
fn random_picker_hands_out_until_no_prize_is_left() {
    let mut rng = rand::rng();
    let prizes = Vec::from_iter((0..6).map(|x| PrizeBuilder::new().name(format!("{x}")).build()));
    let (mut users, log) = (0..10).map(|u| counting_user(u, 1)).collect::<(Vec<_>, Vec<_>)>();
    let mut picker = RandomPicker::new(&users).unwrap();
    let mut queue = PrizeQueue::each_once(&prizes);
    let mut picked = 0;
    loop {
        match picker.draw_one(&mut users, &mut rng, &mut queue) {
            Ok(Some(u)) => {
                assert!(u < 10);
                picked += 1;
            },
            Ok(None) => {},
            Err(()) => break,
        }
    }
    assert_eq!(picked, 6);
    assert!(log.iter().all(|l| l.borrow().len() <= 1));
    assert_eq!(log.iter().map(|l| l.borrow().len()).sum::<usize>(), 6);
}

#[test]
fn random_picker_runs_out_of_tickets() {
    let mut rng = rand::rng();
    let prizes = Vec::from_iter((0..10).map(|x| PrizeBuilder::new().name(format!("{x}")).build()));
    let (mut users, log) = (0..3).map(|u| counting_user(u, u)).collect::<(Vec<_>, Vec<_>)>();
    let mut picker = RandomPicker::new(&users).unwrap();
    let mut queue = PrizeQueue::each_once(&prizes);
    let mut picked = 0;
    while let Ok(r) = picker.draw_one(&mut users, &mut rng, &mut queue) {
        if r.is_some() {
            picked += 1;
        }
    }
    // users 1 and 2 hold three tickets in all
    assert_eq!(picked, 3);
    assert_eq!(log[0].borrow().len(), 0);
    assert_eq!(log[1].borrow().len(), 1);
    assert_eq!(log[2].borrow().len(), 2);
}

#[test]
fn random_picker_without_tickets_stops_at_once() {
    let mut rng = rand::rng();
    let prizes = vec![PrizeBuilder::new().build()];
    let (mut users, _log) = (0..1).map(|u| counting_user(u, 0)).collect::<(Vec<_>, Vec<_>)>();
    let mut picker = RandomPicker::new(&users).unwrap();
    let mut queue = PrizeQueue::each_once(&prizes);
    assert!(picker.draw_one(&mut users, &mut rng, &mut queue).is_err());
}

#[test]
fn walk_goes_left_below_left_tickets() {
    // leaves [3, 5] under the root fork: values below 3 go left
    let s = SpaceEfficientShuffler::from_ticket_counts(&vec![3, 5]);
    assert_eq!(s.choose_child(0, 0), 1);
    assert_eq!(s.choose_child(0, 2), 1);
    assert_eq!(s.choose_child(0, 3), 2);
    assert_eq!(s.choose_child(0, 7), 2);
    // one ticket each, as with two entrants holding a ticket apiece
    let s = SpaceEfficientShuffler::from_ticket_counts(&vec![1, 1]);
    assert_eq!(s.choose_child(0, 0), 1);
    assert_eq!(s.choose_child(0, 1), 2);
}
