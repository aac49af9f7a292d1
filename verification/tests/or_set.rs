use crdts::or_set::{ORSet, Op};
use crdts::{ActorId, Replica};

#[test]
fn or_set_test_add_and_read() {
    let mut replica = Replica::new(ActorId(1), ORSet::default());
    replica.apply(Op::Add("hello".to_string()));
    let values = replica.read();
    assert_eq!(values.len(), 1);
    assert!(values.iter().any(|v| v == "hello"));
}

#[test]
fn test_add_and_remove() {
    let mut replica = Replica::new(ActorId(1), ORSet::default());
    replica.apply(Op::Add(123u64));
    assert!(!replica.read().is_empty());
    replica.apply(Op::Remove(123u64));
    assert!(replica.read().is_empty());
}

#[test]
fn test_concurrent_add_and_remove_add_wins() {
    let mut replica_a = Replica::new(ActorId(1), ORSet::default());
    let mut replica_b = Replica::new(ActorId(2), ORSet::default());

    // both start with {10} in the set
    let (op, ctx) = replica_a.apply(Op::Add(10u64));
    replica_b.apply_remote(op.clone(), ctx.clone());
    assert!(replica_a.read().contains(&10));
    assert!(replica_b.read().contains(&10));

    // concurrently, A removes 10 and B adds 10 again (fresh dot)
    let (remove_op_a, remove_ctx_a) = replica_a.apply(Op::Remove(10u64));
    let (add_op_b, add_ctx_b) = replica_b.apply(Op::Add(10u64));

    // B receives A's remove op
    replica_b.apply_remote(remove_op_a, remove_ctx_a);

    // A receives B's add op
    replica_a.apply_remote(add_op_b, add_ctx_b);

    // after syncing, both replicas keep 10: B's add carried a dot that A's
    // remove could not have seen, so the add wins
    assert!(replica_a.read().contains(&10));
    assert!(replica_b.read().contains(&10));
}

#[test]
fn test_merge() {
    let mut replica_a = Replica::new(ActorId(1), ORSet::default());
    replica_a.apply(Op::Add("A".to_string()));
    replica_a.apply(Op::Add("B".to_string()));
    replica_a.apply(Op::Remove("A".to_string()));

    let mut replica_b = Replica::new(ActorId(2), ORSet::default());
    replica_b.apply(Op::Add("B".to_string()));
    replica_b.apply(Op::Add("C".to_string()));

    replica_a.merge(replica_b.state().clone(), replica_b.clock().clone());

    let values = replica_a.read();
    assert_eq!(values.len(), 2);
    assert!(values.iter().any(|v| v == "B"));
    assert!(values.iter().any(|v| v == "C"));
}
