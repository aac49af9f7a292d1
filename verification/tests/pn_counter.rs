use crdts::pn_counter::{Op, PNCounter};
use crdts::{ActorId, AddCtx, CmRDT, Dot, VClock};

fn actor_ctx(id: u64, counter: u64) -> AddCtx {
    AddCtx { dot: Dot { actor: ActorId(id), counter }, clock: VClock::default() }
}

#[test]
fn test_apply_inc_and_dec() {
    let mut counter = PNCounter::default();

    counter.apply(&Op::Inc(10), &actor_ctx(1, 1));
    counter.apply(&Op::Dec(3), &actor_ctx(1, 2));
    counter.apply(&Op::Inc(5), &actor_ctx(1, 3));

    // (10 + 5) - 3
    assert_eq!(counter.read(), 12);
}

#[test]
fn test_read_value_can_be_negative() {
    let mut counter = PNCounter::default();

    counter.apply(&Op::Inc(5), &actor_ctx(1, 1));
    counter.apply(&Op::Dec(10), &actor_ctx(1, 2));

    assert_eq!(counter.read(), -5);
}

#[test]
fn test_merge_with_separate_replicas() {
    let mut replica_a = PNCounter::default();
    let mut replica_b = PNCounter::default();

    // replica_a gets increments, replica_b gets decrements
    replica_a.apply(&Op::Inc(10), &actor_ctx(1, 1));
    replica_b.apply(&Op::Dec(4), &actor_ctx(2, 1));

    replica_a.merge(replica_b);

    // the final value reflects both operations: 10 - 4
    assert_eq!(replica_a.read(), 6);
}

#[test]
fn test_merge_is_commutative() {
    let mut replica_a = PNCounter::default();
    replica_a.apply(&Op::Inc(10), &actor_ctx(1, 1));
    replica_a.apply(&Op::Dec(2), &actor_ctx(1, 2)); // local value: 8

    let mut replica_b = PNCounter::default();
    replica_b.apply(&Op::Inc(5), &actor_ctx(2, 1));
    replica_b.apply(&Op::Dec(8), &actor_ctx(2, 2)); // local value: -3

    let mut merged_ab = replica_a.clone();
    let mut merged_ba = replica_b.clone();

    merged_ab.merge(replica_b); // merge B into A
    merged_ba.merge(replica_a); // merge A into B

    // both converge to the same value: (10 + 5) - (2 + 8) = 5
    assert_eq!(merged_ab.read(), 5);
    assert_eq!(merged_ba.read(), 5);
    assert_eq!(merged_ab, merged_ba);
}
