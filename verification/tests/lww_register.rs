use crdts::lww_register::{LWWRegister, Op};
use crdts::{ActorId, AddCtx, Dot, Replica, VClock};

#[test]
fn test_initial_value_is_none() {
    let replica = Replica::new(ActorId(1), LWWRegister::<String>::default());
    assert_eq!(replica.read(), None);
}

#[test]
fn lww_register_test_apply_and_read() {
    let mut replica = Replica::new(ActorId(1), LWWRegister::default());
    replica.apply(Op::Assign("hello".to_string()));
    assert_eq!(replica.read(), Some("hello".to_string()));
}

#[test]
fn test_apply_newer_dot_wins() {
    let mut replica = Replica::new(ActorId(1), LWWRegister::default());
    replica.apply(Op::Assign("first".to_string()));
    replica.apply(Op::Assign("second".to_string()));
    assert_eq!(replica.read(), Some("second".to_string()));
}

#[test]
fn test_apply_older_dot_is_ignored() {
    let mut replica = Replica::new(ActorId(2), LWWRegister::default());

    // a remote op with a "future" dot establishes the baseline; the sender's
    // clock already reflects the dot
    let mut remote_clock = VClock::new();
    remote_clock.insert(ActorId(1), 100);
    let remote_ctx = AddCtx { dot: Dot { actor: ActorId(1), counter: 100 }, clock: remote_clock };
    replica.apply_remote(Op::Assign("future".to_string()), remote_ctx);

    assert_eq!(replica.read(), Some("future".to_string()));

    // another remote op from a different actor is causally older: its
    // counter is smaller
    let older_remote_ctx = AddCtx {
        dot: Dot { actor: ActorId(3), counter: 99 },
        clock: VClock::default(),
    };
    replica.apply_remote(Op::Assign("past".to_string()), older_remote_ctx);

    // the state did not change: the older dot was ignored
    assert_eq!(replica.read(), Some("future".to_string()));
}

#[test]
fn test_apply_tie_break_with_actor_id() {
    let mut replica = Replica::new(ActorId(2), LWWRegister::default());

    // a remote op from a "smaller" actor with a high counter
    let remote_ctx = AddCtx {
        dot: Dot { actor: ActorId(1), counter: 100 },
        clock: VClock::default(),
    };
    replica.apply_remote(Op::Assign("from_actor_1".to_string()), remote_ctx);

    // a remote op from a "larger" actor with the same counter
    let remote_ctx_2 = AddCtx {
        dot: Dot { actor: ActorId(3), counter: 100 },
        clock: VClock::default(),
    };
    replica.apply_remote(Op::Assign("from_actor_3".to_string()), remote_ctx_2);

    // actor 3 wins the tie-break
    assert_eq!(replica.read(), Some("from_actor_3".to_string()));
}

#[test]
fn test_merge_newer_dot_wins() {
    let mut replica_a = Replica::new(ActorId(1), LWWRegister::default());
    replica_a.apply(Op::Assign("A".to_string()));

    let mut replica_b = Replica::new(ActorId(1), LWWRegister::default());
    replica_b.apply(Op::Assign("B".to_string()));
    replica_b.apply(Op::Assign("C".to_string()));

    replica_a.merge(replica_b.state().clone(), replica_b.clock().clone());
    assert_eq!(replica_a.read(), Some("C".to_string()));
}

#[test]
fn lww_register_test_merge_is_idempotent() {
    let mut replica_a = Replica::new(ActorId(1), LWWRegister::default());
    replica_a.apply(Op::Assign("A".to_string()));

    let mut replica_b = Replica::new(ActorId(2), LWWRegister::default());
    replica_b.apply(Op::Assign("B".to_string()));

    replica_a.merge(replica_b.state().clone(), replica_b.clock().clone());
    let expected_read = replica_a.read();

    // a second merge does not change the state
    replica_a.merge(replica_b.state().clone(), replica_b.clock().clone());
    assert_eq!(replica_a.read(), expected_read);
}

#[test]
fn test_causality_actor_b_wins_after_syncing() {
    let mut replica_a = Replica::new(ActorId(1), LWWRegister::<String>::default());
    let mut replica_b = Replica::new(ActorId(2), LWWRegister::<String>::default());

    let mut a_ops = Vec::new();

    // actor A performs 10 operations in a row
    for i in 0..10 {
        let op_val = format!("A_{}", i);
        let (op, ctx) = replica_a.apply(Op::Assign(op_val));
        a_ops.push((op, ctx));
    }

    // replica A's value is the last one it set, under counter 10
    assert_eq!(replica_a.read(), Some("A_9".to_string()));
    assert_eq!(replica_a.state().dot.unwrap().counter, 10);

    // actor B receives all of actor A's operations
    for (op, ctx) in a_ops {
        replica_b.apply_remote(op, ctx);
    }

    // replica B is in sync with A: its clock knows the latest time is 10
    assert_eq!(replica_b.read(), Some("A_9".to_string()));
    assert_eq!(replica_b.clock().max_counter(), 10);

    // actor B, having seen all of A's work, performs one new operation
    replica_b.apply(Op::Assign("B_wins".to_string()));

    // B's write wins: its dot carries counter 11 = max(0, 10) + 1, which is
    // strictly greater than any of A's dots
    assert_eq!(replica_b.read(), Some("B_wins".to_string()));

    let final_dot = replica_b.state().dot.unwrap();
    assert_eq!(final_dot.actor, ActorId(2));
    assert_eq!(final_dot.counter, 11);
}
