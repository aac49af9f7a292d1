use crdts::g_counter::GCounter;
use crdts::g_set::GSet;
use crdts::lww_register::LWWRegister;
use crdts::or_set::ORSet;
use crdts::pn_counter::PNCounter;
use crdts::{g_counter, g_set, lww_register, or_set, pn_counter};
use crdts::{ActorId, AddCtx, CmRDT, Dot, Replica, VClock};

fn ctx(actor: u64, counter: u64) -> AddCtx {
    AddCtx { dot: Dot { actor: ActorId(actor), counter }, clock: VClock::default() }
}

#[test]
fn gcounter_scenario_two_actors_sum() {
    // actor 1 applies Inc(10); actor 2 applies Inc(15) on a separate
    // replica; after a merge the counter reads 25
    let mut replica_a = Replica::new(ActorId(1), GCounter::default());
    let mut replica_b = Replica::new(ActorId(2), GCounter::default());

    replica_a.apply(g_counter::Op::Inc(10));
    replica_b.apply(g_counter::Op::Inc(15));

    replica_a.merge(replica_b.state().clone(), replica_b.clock().clone());
    assert_eq!(replica_a.read(), 25);
}

#[test]
fn pncounter_scenario_two_actors() {
    // "alice" increments by 5; "bob" increments by 2 and decrements by 1
    // (local value 1); merging bob into alice reads 6
    let mut alice = Replica::new(ActorId(1), PNCounter::default());
    let mut bob = Replica::new(ActorId(2), PNCounter::default());

    alice.apply(pn_counter::Op::Inc(5));
    bob.apply(pn_counter::Op::Inc(2));
    bob.apply(pn_counter::Op::Dec(1));
    assert_eq!(bob.read(), 1);

    alice.merge(bob.state().clone(), bob.clock().clone());
    assert_eq!(alice.read(), 6);
}

#[test]
fn gcounter_merge_commutes() {
    let mut a = GCounter::default();
    a.apply(&g_counter::Op::Inc(7), &ctx(1, 1));
    let mut b = GCounter::default();
    b.apply(&g_counter::Op::Inc(4), &ctx(2, 1));
    b.apply(&g_counter::Op::Inc(2), &ctx(2, 2));

    let mut ab = a.clone();
    ab.merge(b.clone());
    let mut ba = b.clone();
    ba.merge(a.clone());

    assert_eq!(ab.read(), 13);
    assert_eq!(ba.read(), 13);
    assert_eq!(ab, ba);
}

#[test]
fn gcounter_merge_associates() {
    let mut a = GCounter::default();
    a.apply(&g_counter::Op::Inc(1), &ctx(1, 1));
    let mut b = GCounter::default();
    b.apply(&g_counter::Op::Inc(2), &ctx(2, 1));
    let mut c = GCounter::default();
    c.apply(&g_counter::Op::Inc(4), &ctx(3, 1));

    let mut left = a.clone();
    left.merge(b.clone());
    left.merge(c.clone());

    let mut right_inner = b.clone();
    right_inner.merge(c.clone());
    let mut right = a.clone();
    right.merge(right_inner);

    assert_eq!(left.read(), 7);
    assert_eq!(right.read(), 7);
    assert_eq!(left, right);
}

#[test]
fn gcounter_merge_idempotent() {
    let mut a = GCounter::default();
    a.apply(&g_counter::Op::Inc(9), &ctx(1, 1));
    let before = a.clone();
    a.merge(before.clone());
    assert_eq!(a, before);
    assert_eq!(a.read(), 9);
}

#[test]
fn gset_merge_commutes_and_idempotent() {
    let mut a = GSet::default();
    a.apply(&g_set::Op::Add(1u64), &ctx(1, 1));
    a.apply(&g_set::Op::Add(2u64), &ctx(1, 2));
    let mut b = GSet::default();
    b.apply(&g_set::Op::Add(2u64), &ctx(2, 1));
    b.apply(&g_set::Op::Add(3u64), &ctx(2, 2));

    let mut ab = a.clone();
    ab.merge(b.clone());
    let mut ba = b.clone();
    ba.merge(a.clone());

    let mut ab_values = ab.read();
    let mut ba_values = ba.read();
    ab_values.sort();
    ba_values.sort();
    assert_eq!(ab_values, vec![1, 2, 3]);
    assert_eq!(ab_values, ba_values);

    // merging a set with itself changes nothing
    let before = ab.read();
    let copy = ab.clone();
    ab.merge(copy);
    assert_eq!(ab.read(), before);
}

#[test]
fn orset_merge_commutes() {
    let mut a = ORSet::default();
    a.apply(&or_set::Op::Add(1u64), &ctx(1, 1));
    a.apply(&or_set::Op::Add(2u64), &ctx(1, 2));
    let mut b = ORSet::default();
    b.apply(&or_set::Op::Add(3u64), &ctx(2, 1));

    let mut ab = a.clone();
    ab.merge(b.clone());
    let mut ba = b.clone();
    ba.merge(a.clone());

    let mut ab_values = ab.read();
    let mut ba_values = ba.read();
    ab_values.sort();
    ba_values.sort();
    assert_eq!(ab_values, vec![1, 2, 3]);
    assert_eq!(ab_values, ba_values);
}

#[test]
fn orset_merge_idempotent_keeps_removals() {
    let mut a = ORSet::default();
    a.apply(&or_set::Op::Add(5u64), &ctx(1, 1));
    let mut observing = VClock::default();
    observing.insert(ActorId(1), 1);
    a.apply(
        &or_set::Op::Remove(5u64),
        &AddCtx { dot: Dot { actor: ActorId(1), counter: 2 }, clock: observing },
    );
    assert!(a.read().is_empty());

    let copy = a.clone();
    a.merge(copy);
    // the removal survives a self-merge: tombstoned dots stay retired
    assert!(a.read().is_empty());
}

#[test]
fn lww_merge_commutes_on_reads() {
    let mut a = LWWRegister::default();
    a.apply(&lww_register::Op::Assign("older".to_string()), &ctx(1, 1));
    let mut b = LWWRegister::default();
    b.apply(&lww_register::Op::Assign("newer".to_string()), &ctx(2, 2));

    let mut ab = a.clone();
    ab.merge(b.clone());
    let mut ba = b.clone();
    ba.merge(a.clone());

    assert_eq!(ab.read(), Some("newer".to_string()));
    assert_eq!(ba.read(), Some("newer".to_string()));
}

#[test]
fn convergence_two_replicas_exchange_both_ways() {
    // two replicas that exchange the same operations by different paths
    // reach equal read() results
    let mut replica_a = Replica::new(ActorId(1), ORSet::default());
    let mut replica_b = Replica::new(ActorId(2), ORSet::default());

    let (op_a, ctx_a) = replica_a.apply(or_set::Op::Add(1u64));
    let (op_b, ctx_b) = replica_b.apply(or_set::Op::Add(2u64));

    // A hears B's op first; B hears A's op first
    replica_a.apply_remote(op_b, ctx_b);
    replica_b.apply_remote(op_a, ctx_a);

    let mut a_values = replica_a.read();
    let mut b_values = replica_b.read();
    a_values.sort();
    b_values.sort();
    assert_eq!(a_values, vec![1, 2]);
    assert_eq!(a_values, b_values);
}

#[test]
fn replica_counter_grows_past_observed_history() {
    // a replica that has only observed remote history still mints a dot
    // beyond it
    let mut writer = Replica::new(ActorId(1), LWWRegister::<String>::default());
    let mut observer = Replica::new(ActorId(2), LWWRegister::<String>::default());

    let mut last = None;
    for i in 0..3 {
        let (op, op_ctx) = writer.apply(lww_register::Op::Assign(format!("w{}", i)));
        last = Some((op, op_ctx));
    }
    let (op, op_ctx) = last.unwrap();
    observer.apply_remote(op, op_ctx);
    assert_eq!(observer.clock().max_counter(), 3);

    observer.apply(lww_register::Op::Assign("mine".to_string()));
    let dot = observer.state().dot.unwrap();
    assert_eq!(dot.counter, 4);
    assert_eq!(dot.actor, ActorId(2));
    assert_eq!(observer.read(), Some("mine".to_string()));
}
