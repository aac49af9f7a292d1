use crdts::g_set::{GSet, Op};
use crdts::{ActorId, Replica};

#[test]
fn test_initial_value_is_empty() {
    let replica = Replica::new(ActorId(1), GSet::<u64>::default());
    assert!(replica.read().is_empty());
}

#[test]
fn g_set_test_add_and_read() {
    let mut replica = Replica::new(ActorId(1), GSet::default());
    replica.apply(Op::Add("hello".to_string()));
    replica.apply(Op::Add("world".to_string()));

    let values = replica.read();
    assert_eq!(values.len(), 2);
    assert!(values.iter().any(|v| v == "hello"));
    assert!(values.iter().any(|v| v == "world"));
}

#[test]
fn test_add_is_idempotent() {
    let mut replica = Replica::new(ActorId(1), GSet::default());
    replica.apply(Op::Add(123u64));
    replica.apply(Op::Add(123u64));
    replica.apply(Op::Add(123u64));

    let values = replica.read();
    assert!(values.contains(&123));
    assert_eq!(values.len(), 1);
}

#[test]
fn test_merge_takes_union() {
    let mut replica_a = Replica::new(ActorId(1), GSet::default());
    replica_a.apply(Op::Add(1u64));
    replica_a.apply(Op::Add(2u64));

    let mut replica_b = Replica::new(ActorId(2), GSet::default());
    replica_b.apply(Op::Add(2u64));

    replica_a.merge(replica_b.state().clone(), replica_b.clock().clone());

    let values = replica_a.read();
    assert_eq!(values.len(), 2);
    assert!(values.contains(&1));
    assert!(values.contains(&2));
}
