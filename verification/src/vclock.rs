use vstd::prelude::*;

use crate::actor::ActorId;
use crate::dot::Dot;
use crate::pairs::{keys_unique, lemma_pairs_map_dom, lemma_pairs_map_finite, lemma_pairs_map_index,
    lemma_pairs_map_push, lemma_pairs_map_take_succ, lemma_pairs_map_update, pairs_map};

verus! {

/// A vector clock: for each actor, the highest counter this replica has
/// observed from that actor. It summarizes causal knowledge and never
/// shrinks; merging two clocks takes the pointwise maximum.
///
/// The abstract value (`@`) is the partial map from actor to highest
/// observed counter; an absent actor counts as zero.
#[derive(Debug)]
pub struct VClock {
    entries: Vec<Dot>,
}

/// The counter a clock knows for an actor, zero when the actor is untracked.
pub open spec fn seen(m: Map<ActorId, u64>, a: ActorId) -> u64 {
    if m.dom().contains(a) {
        m[a]
    } else {
        0u64
    }
}

/// Whether the clock has observed the event `d` names: it tracks `d.actor`
/// with a counter at least `d.counter`.
pub open spec fn vclock_contains(m: Map<ActorId, u64>, d: Dot) -> bool {
    m.dom().contains(d.actor) && m[d.actor] >= d.counter
}

/// The pointwise maximum of two clocks.
pub open spec fn vclock_merged(a: Map<ActorId, u64>, b: Map<ActorId, u64>) -> Map<ActorId, u64> {
    Map::new(
        |k: ActorId| a.dom().contains(k) || b.dom().contains(k),
        |k: ActorId| if seen(a, k) > seen(b, k) {
            seen(a, k)
        } else {
            seen(b, k)
        },
    )
}

/// The highest counter a clock has observed from any actor, zero for the
/// empty clock.
pub open spec fn vclock_max(m: Map<ActorId, u64>) -> u64
    decreases m.dom().len() when m.dom().finite()
{
    if m.dom().finite() && m.dom().len() > 0 {
        let a = m.dom().choose();
        let rest = vclock_max(m.remove(a));
        if m[a] > rest {
            m[a]
        } else {
            rest
        }
    } else {
        0u64
    }
}

/// `vclock_max` bounds every entry, and is itself an entry unless it is zero.
pub proof fn lemma_vclock_max_bounds(m: Map<ActorId, u64>)
    requires
        m.dom().finite(),
    ensures
        forall|a: ActorId| m.dom().contains(a) ==> #[trigger] m[a] <= vclock_max(m),
        vclock_max(m) == 0 || exists|a: ActorId|
            m.dom().contains(a) && #[trigger] m[a] == vclock_max(m),
    decreases m.dom().len(),
{
    if m.dom().len() > 0 {
        let a0 = m.dom().choose();
        assert(m.dom().contains(a0));
        lemma_vclock_max_bounds(m.remove(a0));
        let rest = vclock_max(m.remove(a0));
        assert forall|a: ActorId| m.dom().contains(a) implies #[trigger] m[a] <= vclock_max(m) by {
            if a != a0 {
                assert(m.remove(a0).dom().contains(a));
                assert(m.remove(a0)[a] == m[a]);
            }
        }
        if vclock_max(m) != 0 {
            if m[a0] > rest {
                assert(m[a0] == vclock_max(m));
            } else {
                let w = choose|a: ActorId|
                    m.remove(a0).dom().contains(a) && #[trigger] m.remove(a0)[a] == rest;
                assert(m[w] == vclock_max(m));
            }
        }
    }
}

/// Inserting a fresh actor moves the maximum to that actor's counter when it
/// is larger, and leaves it alone otherwise.
pub proof fn lemma_vclock_max_insert(m: Map<ActorId, u64>, a: ActorId, c: u64)
    requires
        m.dom().finite(),
        !m.dom().contains(a),
    ensures
        vclock_max(m.insert(a, c)) == if c > vclock_max(m) {
            c
        } else {
            vclock_max(m)
        },
{
    lemma_vclock_max_bounds(m);
    lemma_vclock_max_bounds(m.insert(a, c));
    let big = vclock_max(m.insert(a, c));
    let small = vclock_max(m);
    assert(m.insert(a, c).dom().contains(a));
    assert(m.insert(a, c)[a] == c);
    assert(c <= big);
    assert(small <= big) by {
        if small != 0 {
            let w = choose|w: ActorId| m.dom().contains(w) && #[trigger] m[w] == small;
            assert(m.insert(a, c).dom().contains(w));
            assert(m.insert(a, c)[w] == small);
        }
    }
    if big != 0 {
        let w = choose|w: ActorId|
            m.insert(a, c).dom().contains(w) && #[trigger] m.insert(a, c)[w] == big;
        if w == a {
            assert(big == c);
        } else {
            assert(m.dom().contains(w));
            assert(m[w] == big);
            assert(big <= small);
        }
    }
}

impl VClock {
    /// The entries as key/value pairs, for the abstract map.
    pub closed spec fn pairs(self) -> Seq<(ActorId, u64)> {
        self.entries@.map_values(|d: Dot| (d.actor, d.counter))
    }

    /// Each tracked actor appears at most once.
    pub closed spec fn wf(self) -> bool {
        keys_unique(self.pairs())
    }

    /// An empty clock: nothing observed yet.
    pub fn new() -> (r: VClock)
        ensures
            r@ == Map::<ActorId, u64>::empty(),
            r.wf(),
    {
        let r = VClock { entries: Vec::new() };
        proof {
            assert(r.pairs() =~= Seq::<(ActorId, u64)>::empty());
        }
        r
    }

    /// Finds the slot tracking `actor`, if one exists.
    fn find(&self, actor: ActorId) -> (r: Option<usize>)
        ensures
            match r {
                Some(i) => 0 <= i < self.pairs().len() && self.pairs()[i as int].0 == actor,
                None => forall|j: int|
                    0 <= j < self.pairs().len() ==> (#[trigger] self.pairs()[j]).0 != actor,
            },
    {
        let n = self.entries.len();
        let mut i: usize = 0;
        while i < n
            invariant
                0 <= i <= n,
                n == self.pairs().len(),
                forall|j: int| 0 <= j < i ==> (#[trigger] self.pairs()[j]).0 != actor,
            decreases n - i,
        {
            if self.entries[i].actor.0 == actor.0 {
                proof {
                    assert(self.entries@[i as int].actor == actor);
                }
                return Some(i);
            }
            i += 1;
        }
        None
    }

    /// The clock's domain is finite.
    pub proof fn lemma_finite(self)
        ensures
            self@.dom().finite(),
    {
        lemma_pairs_map_finite(self.pairs());
    }

    /// Returns the highest counter value in the clock for any actor, zero if
    /// the clock is empty.
    pub fn max_counter(&self) -> (r: u64)
        requires
            self.wf(),
        ensures
            r == vclock_max(self@),
    {
        let s = self.entries.len();
        let mut best: u64 = 0;
        let mut i: usize = 0;
        proof {
            assert(self.pairs().take(0) =~= Seq::<(ActorId, u64)>::empty());
        }
        while i < s
            invariant
                self.wf(),
                0 <= i <= s,
                s == self.pairs().len(),
                best == vclock_max(pairs_map(self.pairs().take(i as int))),
            decreases s - i,
        {
            proof {
                let p = self.pairs();
                let pre = pairs_map(p.take(i as int));
                lemma_pairs_map_finite(p.take(i as int));
                lemma_pairs_map_take_succ(p, i as int);
                assert(!pre.dom().contains(p[i as int].0)) by {
                    lemma_pairs_map_dom(p.take(i as int), p[i as int].0);
                }
                lemma_vclock_max_insert(pre, p[i as int].0, p[i as int].1);
            }
            let c = self.entries[i].counter;
            if c > best {
                best = c;
            }
            i += 1;
        }
        proof {
            assert(self.pairs().take(s as int) =~= self.pairs());
        }
        best
    }

    /// Checks whether the clock has seen the given dot: it has recorded a
    /// counter at least `dot.counter` for `dot.actor`.
    pub fn contains(&self, dot: &Dot) -> (r: bool)
        requires
            self.wf(),
        ensures
            r == vclock_contains(self@, *dot),
    {
        match self.find(dot.actor) {
            Some(i) => {
                proof {
                    lemma_pairs_map_index(self.pairs(), i as int);
                }
                self.entries[i].counter >= dot.counter
            },
            None => {
                proof {
                    lemma_pairs_map_dom(self.pairs(), dot.actor);
                }
                false
            },
        }
    }

    /// Records `counter` for `actor`, replacing whatever was tracked before.
    pub fn insert(&mut self, actor: ActorId, counter: u64)
        requires
            old(self).wf(),
        ensures
            final(self).wf(),
            final(self)@ == old(self)@.insert(actor, counter),
    {
        let d = Dot { actor, counter };
        match self.find(actor) {
            Some(i) => {
                proof {
                    lemma_pairs_map_update(self.pairs(), i as int, (actor, counter));
                    assert(self.pairs().update(i as int, (actor, counter)) =~= self.entries@.update(
                        i as int,
                        d,
                    ).map_values(|x: Dot| (x.actor, x.counter)));
                }
                self.entries[i] = d;
            },
            None => {
                proof {
                    lemma_pairs_map_push(self.pairs(), (actor, counter));
                    assert(self.pairs().push((actor, counter)) =~= self.entries@.push(d).map_values(
                        |x: Dot| (x.actor, x.counter),
                    ));
                }
                self.entries.push(d);
            },
        }
    }

    /// Raises `actor`'s entry to at least `counter` (the pointwise-maximum
    /// step merging is built from).
    fn raise(&mut self, actor: ActorId, counter: u64)
        requires
            old(self).wf(),
        ensures
            final(self).wf(),
            final(self)@ == old(self)@.insert(
                actor,
                if seen(old(self)@, actor) > counter {
                    seen(old(self)@, actor)
                } else {
                    counter
                },
            ),
    {
        match self.find(actor) {
            Some(i) => {
                proof {
                    lemma_pairs_map_index(self.pairs(), i as int);
                }
                let have = self.entries[i].counter;
                let c = if have > counter {
                    have
                } else {
                    counter
                };
                proof {
                    lemma_pairs_map_update(self.pairs(), i as int, (actor, c));
                    assert(self.pairs().update(i as int, (actor, c)) =~= self.entries@.update(
                        i as int,
                        Dot { actor, counter: c },
                    ).map_values(|x: Dot| (x.actor, x.counter)));
                }
                self.entries[i] = Dot { actor, counter: c };
            },
            None => {
                proof {
                    lemma_pairs_map_dom(self.pairs(), actor);
                    lemma_pairs_map_push(self.pairs(), (actor, counter));
                    assert(self.pairs().push((actor, counter)) =~= self.entries@.push(
                        Dot { actor, counter },
                    ).map_values(|x: Dot| (x.actor, x.counter)));
                }
                self.entries.push(Dot { actor, counter });
            },
        }
    }

    /// Merges another clock into this one, taking the maximum of each entry;
    /// an entry absent on either side counts as zero.
    pub fn merge(&mut self, other: VClock)
        requires
            old(self).wf(),
            other.wf(),
        ensures
            final(self).wf(),
            final(self)@ == vclock_merged(old(self)@, other@),
    {
        let n = other.entries.len();
        let mut i: usize = 0;
        proof {
            assert(other.pairs().take(0) =~= Seq::<(ActorId, u64)>::empty());
            assert(vclock_merged(old(self)@, pairs_map(other.pairs().take(0))) =~= old(self)@);
        }
        while i < n
            invariant
                other.wf(),
                self.wf(),
                0 <= i <= n,
                n == other.pairs().len(),
                self@ == vclock_merged(old(self)@, pairs_map(other.pairs().take(i as int))),
            decreases n - i,
        {
            let d = other.entries[i];
            proof {
                let p = other.pairs();
                let bpre = pairs_map(p.take(i as int));
                lemma_pairs_map_take_succ(p, i as int);
                assert(!bpre.dom().contains(p[i as int].0)) by {
                    lemma_pairs_map_dom(p.take(i as int), p[i as int].0);
                }
                assert(p[i as int] == (d.actor, d.counter));
                // raising one actor advances the pointwise maximum by one entry
                assert(vclock_merged(old(self)@, bpre).insert(
                    d.actor,
                    if seen(vclock_merged(old(self)@, bpre), d.actor) > d.counter {
                        seen(vclock_merged(old(self)@, bpre), d.actor)
                    } else {
                        d.counter
                    },
                ) =~= vclock_merged(old(self)@, bpre.insert(d.actor, d.counter)));
            }
            self.raise(d.actor, d.counter);
            i += 1;
        }
        proof {
            assert(other.pairs().take(n as int) =~= other.pairs());
        }
    }

    /// The tracked events, one dot per actor, for callers that ship the clock
    /// elsewhere.
    pub fn dots(&self) -> (r: &Vec<Dot>)
        ensures
            r@.map_values(|d: Dot| (d.actor, d.counter)) == self.pairs(),
            pairs_map(r@.map_values(|d: Dot| (d.actor, d.counter))) == self@,
    {
        &self.entries
    }

    /// Rebuilds a clock from shipped dots; when several dots name the same
    /// actor the first one wins.
    pub fn from_dots(dots: &Vec<Dot>) -> (r: VClock)
        ensures
            r.wf(),
            r@ == first_dots_map(dots@),
    {
        let mut r = VClock::new();
        let n = dots.len();
        let mut i: usize = 0;
        proof {
            assert(dots@.take(0) =~= Seq::<Dot>::empty());
            assert(r@ =~= first_dots_map(dots@.take(0)));
        }
        while i < n
            invariant
                r.wf(),
                0 <= i <= n,
                n == dots@.len(),
                r@ == first_dots_map(dots@.take(i as int)),
            decreases n - i,
        {
            let d = dots[i];
            proof {
                assert(dots@.take(i + 1).drop_last() =~= dots@.take(i as int));
                assert(dots@.take(i + 1).last() == d);
            }
            let tracked_already = r.find(d.actor);
            proof {
                lemma_pairs_map_dom(r.pairs(), d.actor);
            }
            match tracked_already {
                Some(_) => {},
                None => {
                    r.insert(d.actor, d.counter);
                },
            }
            i += 1;
        }
        proof {
            assert(dots@.take(n as int) =~= dots@);
        }
        r
    }
}

/// The clock map described by a sequence of dots, the first dot for an actor
/// winning (later duplicates are stale copies and are dropped).
pub open spec fn first_dots_map(s: Seq<Dot>) -> Map<ActorId, u64>
    decreases s.len(),
{
    if s.len() == 0 {
        Map::empty()
    } else {
        let m = first_dots_map(s.drop_last());
        if m.dom().contains(s.last().actor) {
            m
        } else {
            m.insert(s.last().actor, s.last().counter)
        }
    }
}

impl Clone for VClock {
    /// Clones the clock; the copy has the same abstract value.
    fn clone(&self) -> (r: Self)
        ensures
            r@ == self@,
            r.wf() == self.wf(),
    {
        let n = self.entries.len();
        let mut entries: Vec<Dot> = Vec::new();
        let mut i: usize = 0;
        while i < n
            invariant
                0 <= i <= n,
                n == self.entries@.len(),
                entries@ == self.entries@.take(i as int),
            decreases n - i,
        {
            entries.push(self.entries[i]);
            proof {
                assert(self.entries@.take(i + 1) =~= self.entries@.take(i as int).push(
                    self.entries@[i as int],
                ));
            }
            i += 1;
        }
        proof {
            assert(self.entries@.take(n as int) =~= self.entries@);
        }
        let r = VClock { entries };
        proof {
            assert(r.pairs() =~= self.pairs());
        }
        r
    }
}

impl Default for VClock {
    /// The default clock is empty.
    fn default() -> (r: Self)
        ensures
            r@ == Map::<ActorId, u64>::empty(),
            r.wf(),
    {
        VClock::new()
    }
}

/// Merging clocks is commutative: pointwise maximum does not depend on the
/// order of the two clocks.
pub proof fn lemma_vclock_merge_commutes(a: Map<ActorId, u64>, b: Map<ActorId, u64>)
    ensures
        vclock_merged(a, b) == vclock_merged(b, a),
{
    assert(vclock_merged(a, b) =~= vclock_merged(b, a));
}

/// Merging clocks is associative.
pub proof fn lemma_vclock_merge_associates(
    a: Map<ActorId, u64>,
    b: Map<ActorId, u64>,
    c: Map<ActorId, u64>,
)
    ensures
        vclock_merged(vclock_merged(a, b), c) == vclock_merged(a, vclock_merged(b, c)),
{
    assert(vclock_merged(vclock_merged(a, b), c) =~= vclock_merged(a, vclock_merged(b, c)));
}

/// Merging a clock with itself changes nothing.
pub proof fn lemma_vclock_merge_idempotent(a: Map<ActorId, u64>)
    ensures
        vclock_merged(a, a) == a,
{
    assert(vclock_merged(a, a) =~= a);
}

/// A merged clock has seen everything either side has seen: merging never
/// loses causal knowledge.
pub proof fn lemma_vclock_merge_monotone(a: Map<ActorId, u64>, b: Map<ActorId, u64>, d: Dot)
    requires
        vclock_contains(a, d) || vclock_contains(b, d),
    ensures
        vclock_contains(vclock_merged(a, b), d),
{
}

impl View for VClock {
    type V = Map<ActorId, u64>;

    /// The abstract value: actor to highest observed counter.
    closed spec fn view(&self) -> Map<ActorId, u64> {
        pairs_map(self.pairs())
    }
}

} // verus!
