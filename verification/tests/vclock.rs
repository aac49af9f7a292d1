use crdts::{ActorId, Dot, VClock};

#[test]
fn test_max_counter_of_empty_clock_is_zero() {
    let clock = VClock::new();
    assert_eq!(clock.max_counter(), 0);
}

#[test]
fn test_max_counter_tracks_highest_actor() {
    let mut clock = VClock::new();
    clock.insert(ActorId(1), 4);
    clock.insert(ActorId(2), 9);
    clock.insert(ActorId(3), 7);
    assert_eq!(clock.max_counter(), 9);
}

#[test]
fn test_contains_needs_counter_at_least_the_dots() {
    let mut clock = VClock::new();
    clock.insert(ActorId(1), 5);

    assert!(clock.contains(&Dot { actor: ActorId(1), counter: 5 }));
    assert!(clock.contains(&Dot { actor: ActorId(1), counter: 3 }));
    assert!(!clock.contains(&Dot { actor: ActorId(1), counter: 6 }));
    assert!(!clock.contains(&Dot { actor: ActorId(2), counter: 1 }));
}

#[test]
fn test_merge_takes_pointwise_maximum() {
    let mut a = VClock::new();
    a.insert(ActorId(1), 5);
    a.insert(ActorId(2), 1);

    let mut b = VClock::new();
    b.insert(ActorId(2), 4);
    b.insert(ActorId(3), 2);

    a.merge(b);

    assert!(a.contains(&Dot { actor: ActorId(1), counter: 5 }));
    assert!(a.contains(&Dot { actor: ActorId(2), counter: 4 }));
    assert!(a.contains(&Dot { actor: ActorId(3), counter: 2 }));
    assert!(!a.contains(&Dot { actor: ActorId(2), counter: 5 }));
    assert_eq!(a.max_counter(), 5);
}

#[test]
fn test_merge_commutes_on_observations() {
    let mut a1 = VClock::new();
    a1.insert(ActorId(1), 3);
    let mut a2 = a1.clone();

    let mut b1 = VClock::new();
    b1.insert(ActorId(1), 7);
    b1.insert(ActorId(2), 2);
    let b2 = b1.clone();

    a1.merge(b1);
    b1 = b2;
    b1.merge(a2.clone());
    a2 = a1.clone();

    // both orders make the same observations
    for dot in [
        Dot { actor: ActorId(1), counter: 7 },
        Dot { actor: ActorId(2), counter: 2 },
    ] {
        assert!(a2.contains(&dot));
        assert!(b1.contains(&dot));
    }
    assert_eq!(a2.max_counter(), b1.max_counter());
}

#[test]
fn test_dots_round_trip_through_from_dots() {
    let mut clock = VClock::new();
    clock.insert(ActorId(4), 11);
    clock.insert(ActorId(9), 2);

    let shipped = clock.dots().clone();
    let rebuilt = VClock::from_dots(&shipped);

    assert!(rebuilt.contains(&Dot { actor: ActorId(4), counter: 11 }));
    assert!(rebuilt.contains(&Dot { actor: ActorId(9), counter: 2 }));
    assert_eq!(rebuilt.max_counter(), clock.max_counter());
}

#[test]
fn test_dot_order_is_counter_first() {
    let low = Dot { actor: ActorId(9), counter: 1 };
    let high = Dot { actor: ActorId(1), counter: 2 };
    // the counter decides before the actor id
    assert!(low.precedes(&high));
    assert!(!high.precedes(&low));

    // equal counters fall back to the actor id
    let left = Dot { actor: ActorId(1), counter: 2 };
    let right = Dot { actor: ActorId(3), counter: 2 };
    assert!(left.precedes(&right));
    assert!(!right.precedes(&left));
    assert!(!left.precedes(&left));
}
