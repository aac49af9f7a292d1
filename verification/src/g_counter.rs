use vstd::prelude::*;

use crate::actor::ActorId;
use crate::ctx::AddCtx;
use crate::dot::{dot_lt, lemma_dot_order_total, lemma_dot_order_transitive, Dot};
use crate::pairs::{keys_unique, lemma_pairs_map_dom, lemma_pairs_map_finite,
    lemma_pairs_map_insert_fresh, lemma_pairs_map_take_succ, lemma_pairs_map_update, pairs_map};
use crate::traits::CmRDT;

verus! {

/// One recorded increment: the dot that identifies the operation, and the
/// amount it added.
#[derive(Clone, Copy, Debug, Hash, PartialEq, Eq, Structural)]
pub struct CounterEntry {
    pub dot: Dot,
    pub amount: u64,
}

/// An operation-based, grow-only counter.
///
/// The state is a log of every increment ever applied anywhere, keyed by the
/// dot that minted it. Unlike a state-based counter that tracks one running
/// total per actor, the log keeps individual-operation identity, so merging
/// is a key-wise union: a dot already present maps to the same amount (dots
/// are unique events), and the union is trivially commutative, associative
/// and idempotent. Reading sums all recorded amounts.
///
/// The log is kept strictly sorted by dot, so each dot appears exactly once
/// and logs with equal contents are equal values.
#[derive(Debug, PartialEq, Eq)]
pub struct GCounter {
    pub ops: Vec<CounterEntry>,
}

/// The only operation a grow-only counter accepts: increment by an amount.
#[derive(Clone, Copy, Debug)]
pub enum Op {
    Inc(u64),
}

/// The sum of all amounts an operation log records.
pub open spec fn map_sum(m: Map<Dot, u64>) -> int
    decreases m.dom().len() when m.dom().finite()
{
    if m.dom().finite() && m.dom().len() > 0 {
        let d = m.dom().choose();
        m[d] + map_sum(m.remove(d))
    } else {
        0
    }
}

/// The sum decomposes at any recorded dot, not only the chosen one.
pub proof fn lemma_map_sum_remove(m: Map<Dot, u64>, k: Dot)
    requires
        m.dom().finite(),
        m.dom().contains(k),
    ensures
        map_sum(m) == m[k] + map_sum(m.remove(k)),
    decreases m.dom().len(),
{
    let d = m.dom().choose();
    assert(m.dom().contains(d));
    if d == k {
    } else {
        lemma_map_sum_remove(m.remove(d), k);
        lemma_map_sum_remove(m.remove(k), d);
        assert(m.remove(d).remove(k) =~= m.remove(k).remove(d));
    }
}

/// A log's sum is never negative.
pub proof fn lemma_map_sum_nonneg(m: Map<Dot, u64>)
    requires
        m.dom().finite(),
    ensures
        map_sum(m) >= 0,
    decreases m.dom().len(),
{
    if m.dom().len() > 0 {
        let d = m.dom().choose();
        assert(m.dom().contains(d));
        lemma_map_sum_nonneg(m.remove(d));
    }
}

/// Recording an amount raises the sum by that amount, minus whatever the
/// same dot had recorded before.
pub proof fn lemma_map_sum_insert(m: Map<Dot, u64>, k: Dot, v: u64)
    requires
        m.dom().finite(),
    ensures
        map_sum(m.insert(k, v)) == map_sum(m) + v - (if m.dom().contains(k) {
            m[k] as int
        } else {
            0
        }),
{
    assert(m.insert(k, v).dom() =~= m.dom().insert(k));
    lemma_map_sum_remove(m.insert(k, v), k);
    assert(m.insert(k, v).remove(k) =~= m.remove(k));
    if m.dom().contains(k) {
        lemma_map_sum_remove(m, k);
    } else {
        assert(m.remove(k) =~= m);
    }
}

/// The sum of the amounts of an entry sequence.
pub open spec fn pairs_sum(s: Seq<(Dot, u64)>) -> int
    decreases s.len(),
{
    if s.len() == 0 {
        0
    } else {
        pairs_sum(s.drop_last()) + s.last().1
    }
}

/// On a log with unique dots, summing the entries sums the map.
pub proof fn lemma_pairs_sum_matches(s: Seq<(Dot, u64)>)
    requires
        keys_unique(s),
    ensures
        pairs_sum(s) == map_sum(pairs_map(s)),
    decreases s.len(),
{
    if s.len() == 0 {
        assert(pairs_map(s).dom() =~= Set::<Dot>::empty());
    } else {
        assert(keys_unique(s.drop_last())) by {
            assert(forall|x: int, y: int|
                0 <= x < y < s.len() - 1 ==> (#[trigger] s.drop_last()[x]).0 != (
                #[trigger] s.drop_last()[y]).0);
        }
        lemma_pairs_sum_matches(s.drop_last());
        lemma_pairs_map_finite(s.drop_last());
        lemma_pairs_map_dom(s.drop_last(), s.last().0);
        assert(!pairs_map(s.drop_last()).dom().contains(s.last().0)) by {
            assert(forall|j: int|
                0 <= j < s.len() - 1 ==> (#[trigger] s.drop_last()[j]).0 != s.last().0);
        }
        lemma_map_sum_insert(pairs_map(s.drop_last()), s.last().0, s.last().1);
    }
}

/// A prefix of the log never sums to more than the whole log.
pub proof fn lemma_pairs_sum_take_le(s: Seq<(Dot, u64)>, i: int)
    requires
        0 <= i <= s.len(),
    ensures
        pairs_sum(s.take(i)) <= pairs_sum(s),
    decreases s.len() - i,
{
    if i == s.len() {
        assert(s.take(i) =~= s);
    } else {
        assert(s.take(i + 1).drop_last() =~= s.take(i));
        assert(s.take(i + 1).last() == s[i]);
        lemma_pairs_sum_take_le(s, i + 1);
    }
}

impl GCounter {
    /// The log as key/value pairs, for the abstract map.
    pub closed spec fn pairs(self) -> Seq<(Dot, u64)> {
        self.ops@.map_values(|e: CounterEntry| (e.dot, e.amount))
    }

    /// The log is strictly sorted by dot.
    pub closed spec fn sorted(self) -> bool {
        forall|i: int, j: int|
            0 <= i < j < self.pairs().len() ==> dot_lt(
                (#[trigger] self.pairs()[i]).0,
                (#[trigger] self.pairs()[j]).0,
            )
    }

    /// A strictly sorted log records each dot at most once.
    proof fn lemma_sorted_unique(self)
        requires
            self.sorted(),
        ensures
            keys_unique(self.pairs()),
    {
    }

    /// An empty counter: no increment recorded yet.
    pub fn new() -> (r: GCounter)
        ensures
            r.wf(),
            r.state_view() == Map::<Dot, u64>::empty(),
    {
        let r = GCounter { ops: Vec::new() };
        proof {
            assert(r.pairs() =~= Seq::<(Dot, u64)>::empty());
            assert(r.state_view().dom() =~= Set::<Dot>::empty());
        }
        r
    }

    /// Finds the slot where `dot` belongs: the first entry not below `dot`.
    fn find_slot(&self, dot: Dot) -> (i: usize)
        requires
            self.sorted(),
        ensures
            0 <= i <= self.pairs().len(),
            forall|j: int| 0 <= j < i ==> dot_lt((#[trigger] self.pairs()[j]).0, dot),
            i < self.pairs().len() ==> !dot_lt(self.pairs()[i as int].0, dot),
    {
        let n = self.ops.len();
        let mut i: usize = 0;
        while i < n
            invariant
                0 <= i <= n,
                n == self.pairs().len(),
                forall|j: int| 0 <= j < i ==> dot_lt((#[trigger] self.pairs()[j]).0, dot),
            decreases n - i,
        {
            if !self.ops[i].dot.precedes(&dot) {
                return i;
            }
            i += 1;
        }
        i
    }

    /// Records `amount` under `dot`, replacing what the same dot recorded
    /// before (dots are unique events, so a collision carries the same
    /// amount anyway).
    fn insert_entry(&mut self, dot: Dot, amount: u64)
        requires
            old(self).sorted(),
        ensures
            final(self).sorted(),
            final(self).state_view() == old(self).state_view().insert(dot, amount),
    {
        let i = self.find_slot(dot);
        proof {
            self.lemma_sorted_unique();
        }
        let n = self.ops.len();
        if i < n && self.ops[i].dot == dot {
            proof {
                lemma_pairs_map_update(self.pairs(), i as int, (dot, amount));
                assert(self.pairs().update(i as int, (dot, amount)) =~= self.ops@.update(
                    i as int,
                    CounterEntry { dot, amount },
                ).map_values(|e: CounterEntry| (e.dot, e.amount)));
            }
            self.ops[i] = CounterEntry { dot, amount };
        } else {
            proof {
                let p = self.pairs();
                // every key differs from `dot`: those before slot `i` are
                // below it, the one at `i` is strictly above it, and the
                // rest are above that one
                assert forall|j: int| 0 <= j < p.len() implies (#[trigger] p[j]).0 != dot by {
                    if j >= i {
                        lemma_dot_order_total(p[i as int].0, dot);
                        if j > i {
                            lemma_dot_order_transitive(dot, p[i as int].0, p[j].0);
                        }
                    }
                }
                lemma_pairs_map_insert_fresh(p, i as int, (dot, amount));
                assert(p.insert(i as int, (dot, amount)) =~= self.ops@.insert(
                    i as int,
                    CounterEntry { dot, amount },
                ).map_values(|e: CounterEntry| (e.dot, e.amount)));
                // the new log is still strictly sorted around slot `i`
                let q = self.ops@.insert(i as int, CounterEntry { dot, amount }).map_values(
                    |e: CounterEntry| (e.dot, e.amount),
                );
                assert forall|x: int, y: int| 0 <= x < y < q.len() implies dot_lt(
                    (#[trigger] q[x]).0,
                    (#[trigger] q[y]).0,
                ) by {
                    if x == i {
                        if i < p.len() {
                            lemma_dot_order_total(p[i as int].0, dot);
                            if y > i + 1 {
                                lemma_dot_order_transitive(dot, p[i as int].0, p[y - 1].0);
                            }
                        }
                    } else if y == i {
                        assert(dot_lt(p[x].0, dot));
                    } else if x < i && y > i {
                        assert(dot_lt(p[x].0, dot));
                        if i < p.len() {
                            lemma_dot_order_total(p[i as int].0, dot);
                            lemma_dot_order_transitive(p[x].0, dot, p[y - 1].0);
                        }
                    }
                }
            }
            self.ops.insert(i, CounterEntry { dot, amount });
        }
    }
}

impl CmRDT for GCounter {
    type Op = Op;

    type Value = u64;

    type StateView = Map<Dot, u64>;

    /// The model: the map from dot to recorded amount.
    open spec fn state_view(self) -> Map<Dot, u64> {
        pairs_map(self.pairs())
    }

    /// The log is strictly sorted and its total fits the counter word.
    open spec fn wf(self) -> bool {
        self.sorted() && map_sum(self.state_view()) <= u64::MAX
    }

    /// A model is a finite log.
    open spec fn view_wf(s: Map<Dot, u64>) -> bool {
        s.dom().finite()
    }

    /// Dots are unique events: logs from one history agree on shared dots.
    open spec fn compat(a: Map<Dot, u64>, b: Map<Dot, u64>) -> bool {
        forall|d: Dot|
            #![trigger a[d], b[d]]
            a.dom().contains(d) && b.dom().contains(d) ==> a[d] == b[d]
    }

    /// The grown total must still fit the counter word.
    open spec fn can_apply(self, op: &Op) -> bool {
        match *op {
            Op::Inc(amount) => map_sum(self.state_view()) + amount <= u64::MAX,
        }
    }

    /// The merged total must still fit the counter word.
    open spec fn can_merge(self, other: &Self) -> bool {
        map_sum(Self::merged(self.state_view(), other.state_view())) <= u64::MAX
    }

    /// Applying `Inc(amount)` records the amount under the operation's dot.
    open spec fn applied(
        s: Map<Dot, u64>,
        op: &Op,
        dot: Dot,
        clock: Map<ActorId, u64>,
    ) -> Map<Dot, u64> {
        match *op {
            Op::Inc(amount) => s.insert(dot, amount),
        }
    }

    /// Merging unions the logs; on a shared dot the incoming amount wins
    /// (it is the same amount on states from one history).
    open spec fn merged(a: Map<Dot, u64>, b: Map<Dot, u64>) -> Map<Dot, u64> {
        a.union_prefer_right(b)
    }

    /// Reading yields exactly the sum of all recorded amounts.
    open spec fn read_agrees(s: Map<Dot, u64>, v: &u64) -> bool {
        *v as int == map_sum(s)
    }

    fn apply(&mut self, op: &Op, ctx: &AddCtx) {
        proof {
            self.lemma_sorted_unique();
            lemma_pairs_map_finite(self.pairs());
            lemma_map_sum_nonneg(self.state_view().remove(ctx.dot));
            lemma_map_sum_insert(
                self.state_view(),
                ctx.dot,
                match *op {
                    Op::Inc(amount) => amount,
                },
            );
        }
        match op {
            Op::Inc(amount) => {
                self.insert_entry(ctx.dot, *amount);
            },
        }
    }

    fn merge(&mut self, other: Self) {
        proof {
            other.lemma_sorted_unique();
            assert(self.state_view().union_prefer_right(
                pairs_map(other.pairs().take(0)),
            ) =~= self.state_view()) by {
                assert(other.pairs().take(0) =~= Seq::<(Dot, u64)>::empty());
            }
        }
        let n = other.ops.len();
        let mut i: usize = 0;
        while i < n
            invariant
                other.sorted(),
                keys_unique(other.pairs()),
                self.sorted(),
                0 <= i <= n,
                n == other.pairs().len(),
                self.state_view() == old(self).state_view().union_prefer_right(
                    pairs_map(other.pairs().take(i as int)),
                ),
            decreases n - i,
        {
            let e = other.ops[i];
            proof {
                let p = other.pairs();
                let bpre = pairs_map(p.take(i as int));
                lemma_pairs_map_take_succ(p, i as int);
                assert(!bpre.dom().contains(p[i as int].0)) by {
                    lemma_pairs_map_dom(p.take(i as int), p[i as int].0);
                }
                assert(p[i as int] == (e.dot, e.amount));
                assert(old(self).state_view().union_prefer_right(bpre).insert(e.dot, e.amount)
                    =~= old(self).state_view().union_prefer_right(
                    bpre.insert(e.dot, e.amount),
                ));
            }
            self.insert_entry(e.dot, e.amount);
            i += 1;
        }
        proof {
            assert(other.pairs().take(n as int) =~= other.pairs());
        }
    }

    fn read(&self) -> (r: u64) {
        proof {
            self.lemma_sorted_unique();
            lemma_pairs_sum_matches(self.pairs());
        }
        let n = self.ops.len();
        let mut total: u64 = 0;
        let mut i: usize = 0;
        proof {
            assert(self.pairs().take(0) =~= Seq::<(Dot, u64)>::empty());
        }
        while i < n
            invariant
                self.wf(),
                keys_unique(self.pairs()),
                pairs_sum(self.pairs()) == map_sum(self.state_view()),
                0 <= i <= n,
                n == self.pairs().len(),
                total == pairs_sum(self.pairs().take(i as int)),
            decreases n - i,
        {
            proof {
                assert(self.pairs().take(i + 1).drop_last() =~= self.pairs().take(i as int));
                assert(self.pairs().take(i + 1).last() == self.pairs()[i as int]);
                lemma_pairs_sum_take_le(self.pairs(), i + 1);
                lemma_pairs_sum_matches(self.pairs().take(i as int));
                lemma_pairs_map_finite(self.pairs().take(i as int));
                lemma_map_sum_nonneg(pairs_map(self.pairs().take(i as int)));
            }
            total = total + self.ops[i].amount;
            i += 1;
        }
        proof {
            assert(self.pairs().take(n as int) =~= self.pairs());
        }
        total
    }

    proof fn lemma_wf_view(self) {
        lemma_pairs_map_finite(self.pairs());
    }

    proof fn lemma_merged_view_wf(a: Map<Dot, u64>, b: Map<Dot, u64>) {
        assert(a.union_prefer_right(b).dom() =~= a.dom().union(b.dom()));
    }

    proof fn lemma_compat_symmetric(a: Map<Dot, u64>, b: Map<Dot, u64>) {
        assert forall|d: Dot|
            #![trigger b[d], a[d]]
            b.dom().contains(d) && a.dom().contains(d) implies b[d] == a[d] by {
            assert(a[d] == b[d]);
        }
    }

    proof fn lemma_compat_merge(a: Map<Dot, u64>, b: Map<Dot, u64>, c: Map<Dot, u64>) {
        let m = a.union_prefer_right(b);
        assert forall|d: Dot|
            #![trigger m[d], c[d]]
            m.dom().contains(d) && c.dom().contains(d) implies m[d] == c[d] by {
            if b.dom().contains(d) {
                assert(b[d] == c[d]);
            } else {
                assert(a[d] == c[d]);
            }
        }
    }

    proof fn lemma_merge_commutes(a: Map<Dot, u64>, b: Map<Dot, u64>) {
        assert forall|d: Dot|
            a.union_prefer_right(b).dom().contains(d) implies #[trigger] a.union_prefer_right(
            b,
        )[d] == b.union_prefer_right(a)[d] by {
            if a.dom().contains(d) && b.dom().contains(d) {
                assert(a[d] == b[d]);
            }
        }
        assert(a.union_prefer_right(b) =~= b.union_prefer_right(a));
    }

    proof fn lemma_merge_associates(a: Map<Dot, u64>, b: Map<Dot, u64>, c: Map<Dot, u64>) {
        assert(a.union_prefer_right(b).union_prefer_right(c) =~= a.union_prefer_right(
            b.union_prefer_right(c),
        ));
    }

    proof fn lemma_merge_idempotent(a: Map<Dot, u64>) {
        assert(a.union_prefer_right(a) =~= a);
    }
}

impl Clone for GCounter {
    /// Copies the log entry for entry; the copy is an equal value.
    fn clone(&self) -> (r: Self)
        ensures
            r.ops@ == self.ops@,
            r.wf() == self.wf(),
            r.state_view() == self.state_view(),
    {
        let n = self.ops.len();
        let mut ops: Vec<CounterEntry> = Vec::new();
        let mut i: usize = 0;
        while i < n
            invariant
                0 <= i <= n,
                n == self.ops@.len(),
                ops@ == self.ops@.take(i as int),
            decreases n - i,
        {
            ops.push(self.ops[i]);
            proof {
                assert(self.ops@.take(i + 1) =~= self.ops@.take(i as int).push(
                    self.ops@[i as int],
                ));
            }
            i += 1;
        }
        proof {
            assert(self.ops@.take(n as int) =~= self.ops@);
        }
        let r = GCounter { ops };
        proof {
            assert(r.pairs() =~= self.pairs());
        }
        r
    }
}

impl Default for GCounter {
    /// The default counter is empty and reads zero.
    fn default() -> (r: Self)
        ensures
            r.wf(),
            r.state_view() == Map::<Dot, u64>::empty(),
    {
        GCounter::new()
    }
}

} // verus!
