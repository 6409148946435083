use lottery::entrant::{Entrant, EntrantBuilder, MultiPrizeEntrant, SinglePrizeEntrant};
use lottery::prize::{Prize, PrizeBuilder};
use lottery::user::{MultiPrizeUser, SinglePrizeUser, User, UserBuilder};
use uuid::Uuid;

#[test]
fn prize_new_and_builder() {
    let p = Prize::new(String::from("car"), 3);
    assert_eq!(p.name(), "car");
    assert_eq!(p.count(), 3);
    let b = PrizeBuilder::new().build();
    assert_eq!(b.name(), "");
    assert_eq!(b.count(), 1);
    let c = PrizeBuilder::new().count(0).name(String::from("nothing")).build();
    assert_eq!(c.name(), "nothing");
    assert_eq!(c.count(), 0);
}

#[test]
fn single_prize_entrant_takes_one_prize() {
    let id = Uuid::from_u128(42);
    let first = PrizeBuilder::new().name(String::from("first")).build();
    let second = PrizeBuilder::new().name(String::from("second")).build();
    let mut e = SinglePrizeEntrant::new(id, String::from("amy"), 5);
    assert_eq!(e.name(), "amy");
    assert_eq!(e.key(), id);
    assert_eq!(e.ticket_count(), 5);
    assert!(!e.has_prize());
    assert!(e.prize().is_none());
    assert!(e.add_prize(&first));
    assert!(e.has_prize());
    assert!(!e.add_prize(&second));
    assert_eq!(e.prize().map(|p| p.name()), Some("first"));
    assert_eq!(e.ticket_count(), 5);
}

#[test]
fn multi_prize_entrant_takes_every_prize() {
    let id = Uuid::from_u128(7);
    let first = PrizeBuilder::new().name(String::from("first")).build();
    let second = PrizeBuilder::new().name(String::from("second")).build();
    let mut e = MultiPrizeEntrant::new(id, String::from("bob"), 2);
    assert!(!e.has_prize());
    assert!(e.add_prize(&first));
    assert!(e.add_prize(&second));
    assert!(e.add_prize(&first));
    assert!(e.has_prize());
    let names: Vec<&str> = e.prizes().iter().map(|p| p.name()).collect();
    assert_eq!(names, vec!["first", "second", "first"]);
    assert_eq!(e.key(), id);
    assert_eq!(e.name(), "bob");
    assert_eq!(e.ticket_count(), 2);
}

#[test]
fn entrant_builder_defaults_and_settings() {
    let e = EntrantBuilder::new().build_single();
    assert_eq!(e.name(), "");
    assert_eq!(e.ticket_count(), 0);
    assert!(!e.has_prize());
    let d = EntrantBuilder::default().build_multiple();
    assert_eq!(d.name(), "");
    assert_eq!(d.ticket_count(), 0);
    assert!(d.prizes().is_empty());
    // without an id, each build draws a fresh one
    assert_ne!(EntrantBuilder::new().build_single().key(), EntrantBuilder::new().build_single().key());
    let id = Uuid::from_u128(99);
    let s = EntrantBuilder::new()
        .name(String::from("cat"))
        .id(id)
        .ticket_count(12)
        .build_single();
    assert_eq!((s.name(), s.key(), s.ticket_count()), ("cat", id, 12));
    let m = EntrantBuilder::new().ticket_count(3).id(id).build_multiple();
    assert_eq!((m.name(), m.key(), m.ticket_count()), ("", id, 3));
}

#[test]
fn single_prize_user_takes_one_prize() {
    let id = Uuid::from_u128(5);
    let first = PrizeBuilder::new().name(String::from("first")).build();
    let mut u = SinglePrizeUser::new(id, String::from("dan"), 1);
    assert_eq!(u.key(), id);
    assert_eq!(u.name(), "dan");
    assert_eq!(u.ticket_count(), 1);
    assert!(u.add_prize(&first));
    assert!(!u.add_prize(&first));
    assert_eq!(u.prize().map(|p| p.name()), Some("first"));
    assert!(u.has_prize());
}

#[test]
fn multi_prize_user_takes_every_prize() {
    let prize = PrizeBuilder::new().count(2).name(String::from("hat")).build();
    let mut u = MultiPrizeUser::new(Uuid::from_u128(6), String::from("eve"), 4);
    assert!(!u.has_prize());
    assert!(u.add_prize(&prize));
    assert!(u.add_prize(&prize));
    assert_eq!(u.prizes().len(), 2);
    assert_eq!(u.name(), "eve");
    assert_eq!(u.ticket_count(), 4);
}

#[test]
fn user_builder_defaults_and_settings() {
    let u = UserBuilder::new().build_single();
    assert_eq!((u.name(), u.ticket_count()), ("", 0));
    assert_ne!(UserBuilder::default().build_multiple().key(), UserBuilder::default().build_multiple().key());
    let id = Uuid::from_u128(1);
    let s = UserBuilder::new().id(id).name(String::from("fay")).ticket_count(8).build_single();
    assert_eq!((s.name(), s.key(), s.ticket_count()), ("fay", id, 8));
    let m = UserBuilder::new().id(id).build_multiple();
    assert_eq!((m.key(), m.ticket_count()), (id, 0));
    assert!(m.prizes().is_empty());
}
