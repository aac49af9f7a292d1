use crdts::g_counter::{GCounter, Op};
use crdts::{ActorId, Replica};

#[test]
fn test_initial_value_is_zero() {
    let replica = Replica::new(ActorId(1), GCounter::default());

    assert_eq!(replica.read(), 0);
}

#[test]
fn g_counter_test_apply_and_read() {
    let mut replica = Replica::new(ActorId(1), GCounter::default());

    replica.apply(Op::Inc(5));
    replica.apply(Op::Inc(10));

    assert_eq!(replica.read(), 15);
}

#[test]
fn test_merge_with_another_counter() {
    let mut replica_a = Replica::new(ActorId(1), GCounter::default());
    let mut replica_b = Replica::new(ActorId(2), GCounter::default());

    // different actors increment on different replicas
    replica_a.apply(Op::Inc(5));
    replica_b.apply(Op::Inc(10));

    replica_a.merge(replica_b.state().clone(), replica_b.clock().clone());

    // the final value is the sum over all actors
    assert_eq!(replica_a.read(), 15);
}

#[test]
fn test_op_based_logic_preserves_distinct_ops() {
    let mut replica = Replica::new(ActorId(1), GCounter::default());

    // three distinct operations from the same actor
    replica.apply(Op::Inc(10));
    replica.apply(Op::Inc(5));
    replica.apply(Op::Inc(3));

    // the log keeps one entry per operation, and the value is their sum
    assert_eq!(replica.state().ops.len(), 3);
    assert_eq!(replica.read(), 18);
}

#[test]
fn g_counter_test_merge_is_idempotent() {
    let mut replica_a = Replica::new(ActorId(1), GCounter::default());
    let mut replica_b = Replica::new(ActorId(2), GCounter::default());

    replica_a.apply(Op::Inc(5));
    replica_b.apply(Op::Inc(10));

    replica_a.merge(replica_b.state().clone(), replica_b.clock().clone());

    let state_before_merge = replica_a.state().clone();
    let clock_before_merge = replica_a.clock().clone();
    let value_before_merge = replica_a.read();

    // merging the replica with its own, identical state changes nothing
    replica_a.merge(state_before_merge, clock_before_merge);

    assert_eq!(replica_a.read(), value_before_merge);
}
