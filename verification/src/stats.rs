//! Accumulators of statistics. Each is handed the transactions of a ledger
//! one by one, and holds in integers what the averages are computed from.

use crate::depth::cached;
use crate::graph::Graph;
use crate::id::Id;
use crate::ledger;
use crate::ledger::acyclic;
use crate::ledger::complete;
use crate::ledger::count_of;
use crate::ledger::lemma_count_of;
use crate::ledger::numbered;
use crate::ledger::times_referred;
use crate::ledger::Ledger;
use crate::transaction::Transaction;
use crate::transaction::TransactionView;
use std::collections::HashMap;
use std::collections::HashSet;
use vstd::prelude::*;
use vstd::std_specs::hash::*;

verus! {

/// What the depths seen so far amount to: their sum, and the set of them.
pub struct DepthsView {
    pub sum: nat,
    pub depths: Set<usize>,
}

/// Accumulates the depths of transactions.
pub struct Depths<'a> {
    graph: &'a Graph,
    cache: HashMap<usize, usize>,
    sum_of_depths: usize,
    unique_depths: HashSet<usize>,
}

impl<'a> View for Depths<'a> {
    type V = DepthsView;

    closed spec fn view(&self) -> DepthsView {
        DepthsView { sum: self.sum_of_depths as nat, depths: self.unique_depths@ }
    }
}

impl<'a> Depths<'a> {
    /// The ledger whose transactions are accumulated.
    pub closed spec fn graph(&self) -> &'a Graph {
        self.graph
    }

    /// Whether the depths kept for later are right.
    pub closed spec fn wf(&self) -> bool {
        cached(self.graph@, self.cache@)
    }

    /// An accumulator that has seen no transaction of `graph`.
    pub fn new(graph: &'a Graph) -> (depths: Depths<'a>)
        ensures
            depths.wf(),
            depths.graph() == graph,
            depths@ == (DepthsView { sum: 0, depths: Set::empty() }),
    {
        broadcast use group_hash_axioms;

        Depths {
            graph,
            cache: HashMap::with_capacity(graph.len()),
            sum_of_depths: 0,
            unique_depths: HashSet::with_capacity(graph.len()),
        }
    }

    /// Takes in one transaction of the ledger: adds its depth to the sum,
    /// and to the set of depths.
    pub fn accumulate(&mut self, transaction: &Transaction)
        requires
            old(self).wf(),
            old(self).graph().wf(),
            complete(old(self).graph()@),
            acyclic(old(self).graph()@),
            transaction@.id <= old(self).graph()@.len() + 1,
            old(self)@.sum + ledger::depth(old(self).graph()@, transaction@.id) <= usize::MAX,
        ensures
            final(self).wf(),
            final(self).graph() == old(self).graph(),
            final(self)@.sum == old(self)@.sum + ledger::depth(
                old(self).graph()@,
                transaction@.id,
            ),
            final(self)@.depths == old(self)@.depths.insert(
                ledger::depth(old(self).graph()@, transaction@.id) as usize,
            ),
    {
        broadcast use group_hash_axioms;

        let graph = self.graph;
        let depth = graph.depth(transaction.id(), &mut self.cache);
        self.sum_of_depths += depth;
        self.unique_depths.insert(depth);
    }

    /// The sum of the depths seen.
    pub fn sum_of_depths(&self) -> (sum: usize)
        ensures
            sum == self@.sum,
    {
        self.sum_of_depths
    }

    /// The number of different depths seen.
    pub fn unique_depths(&self) -> (count: usize)
        ensures
            count == self@.depths.len(),
    {
        broadcast use group_hash_axioms;

        self.unique_depths.len()
    }
}

/// Accumulates the numbers of references that lead to transactions, and to
/// the root.
pub struct InReferences<'a> {
    graph: &'a Graph,
    total_references: Option<usize>,
}

impl<'a> View for InReferences<'a> {
    type V = Option<nat>;

    /// The number of references counted so far; `None` before the first
    /// transaction.
    closed spec fn view(&self) -> Option<nat> {
        match self.total_references {
            Some(total) => Some(total as nat),
            None => None,
        }
    }
}

impl<'a> InReferences<'a> {
    /// The ledger whose transactions are accumulated.
    pub closed spec fn graph(&self) -> &'a Graph {
        self.graph
    }

    /// An accumulator that has seen no transaction of `graph`.
    pub fn new(graph: &'a Graph) -> (references: InReferences<'a>)
        ensures
            references.graph() == graph,
            references@ is None,
    {
        InReferences { graph, total_references: None }
    }

    /// What one more transaction adds to the count: the number of
    /// references that lead to it, and before anything was counted, also the
    /// number of those that lead to the root.
    pub open spec fn added(ledger: Ledger, so_far: Option<nat>, id: int) -> nat {
        match so_far {
            Some(total) => total + count_of(ledger, id),
            None => count_of(ledger, 1) + count_of(ledger, id),
        }
    }

    /// Takes in one transaction of the ledger.
    pub fn accumulate(&mut self, transaction: &Transaction)
        requires
            old(self).graph().wf(),
            InReferences::added(old(self).graph()@, old(self)@, transaction@.id) <= usize::MAX,
        ensures
            final(self).graph() == old(self).graph(),
            final(self)@ == Some(
                InReferences::added(old(self).graph()@, old(self)@, transaction@.id),
            ),
    {
        let graph = self.graph;
        let references = match graph.in_refs(Id::Transaction(transaction.id())) {
            Some(refs) => refs.count(),
            None => 0,
        };
        let total = match self.total_references {
            Some(total) => total + references,
            None => {
                let to_root = match graph.in_refs(Id::Root) {
                    Some(refs) => refs.count(),
                    None => 0,
                };
                to_root + references
            },
        };
        self.total_references = Some(total);
    }

    /// The number of references counted; 0 before the first transaction.
    pub fn total_references(&self) -> (total: usize)
        ensures
            total == match self@ {
                Some(total) => total,
                None => 0,
            },
    {
        match self.total_references {
            Some(total) => total,
            None => 0,
        }
    }
}

/// Accumulates the largest timestamp.
pub struct TimeUnits {
    max_timestamp: usize,
}

impl View for TimeUnits {
    type V = nat;

    /// The largest timestamp seen so far; 0 before the first transaction.
    closed spec fn view(&self) -> nat {
        self.max_timestamp as nat
    }
}

impl Default for TimeUnits {
    /// An accumulator that has seen no transaction.
    fn default() -> (units: TimeUnits)
        ensures
            units@ == 0,
    {
        TimeUnits { max_timestamp: 0 }
    }
}

impl TimeUnits {
    /// An accumulator that has seen no transaction.
    pub fn new() -> (units: TimeUnits)
        ensures
            units@ == 0,
    {
        TimeUnits { max_timestamp: 0 }
    }

    /// Takes in one transaction.
    pub fn accumulate(&mut self, transaction: &Transaction)
        ensures
            final(self)@ == if transaction@.timestamp > old(self)@ {
                transaction@.timestamp as nat
            } else {
                old(self)@
            },
    {
        let timestamp = transaction.timestamp();
        if timestamp > self.max_timestamp {
            self.max_timestamp = timestamp;
        }
    }

    /// The largest timestamp seen.
    pub fn max_timestamp(&self) -> (max: usize)
        ensures
            max == self@,
    {
        self.max_timestamp
    }
}

/// Accumulates the different timestamps.
pub struct Timestamps {
    unique_timestamps: HashSet<usize>,
}

impl View for Timestamps {
    type V = Set<usize>;

    /// The timestamps seen so far.
    closed spec fn view(&self) -> Set<usize> {
        self.unique_timestamps@
    }
}

impl Timestamps {
    /// An accumulator that has seen no transaction of `graph`.
    pub fn new(graph: &Graph) -> (timestamps: Timestamps)
        ensures
            timestamps@ == Set::<usize>::empty(),
    {
        Timestamps { unique_timestamps: HashSet::with_capacity(graph.len()) }
    }

    /// Takes in one transaction.
    pub fn accumulate(&mut self, transaction: &Transaction)
        ensures
            final(self)@ == old(self)@.insert(transaction@.timestamp as usize),
    {
        broadcast use group_hash_axioms;

        self.unique_timestamps.insert(transaction.timestamp());
    }

    /// The number of different timestamps seen.
    pub fn unique_timestamps(&self) -> (count: usize)
        ensures
            count == self@.len(),
    {
        broadcast use group_hash_axioms;

        self.unique_timestamps.len()
    }
}

/// The sum of the depths of the first `k` transactions.
pub open spec fn depth_sum(ledger: Ledger, k: nat) -> nat
    decreases k,
{
    if k == 0 {
        0
    } else {
        depth_sum(ledger, (k - 1) as nat) + ledger::depth(ledger, k as int + 1)
    }
}

/// The depths of the first `k` transactions.
pub open spec fn depths_among(ledger: Ledger, k: nat) -> Set<usize>
    decreases k,
{
    if k == 0 {
        Set::empty()
    } else {
        depths_among(ledger, (k - 1) as nat).insert(ledger::depth(ledger, k as int + 1) as usize)
    }
}

/// The number of references that lead to the first `m` vertices, the root
/// being the first vertex.
pub open spec fn references_to_first(ledger: Ledger, m: nat) -> nat
    decreases m,
{
    if m == 0 {
        0
    } else {
        references_to_first(ledger, (m - 1) as nat) + count_of(ledger, m as int)
    }
}

/// The largest timestamp of the first `k` transactions; 0 where `k` is 0.
pub open spec fn latest(ledger: Ledger, k: nat) -> nat
    decreases k,
{
    if k == 0 {
        0
    } else if ledger[k - 1].timestamp > latest(ledger, (k - 1) as nat) {
        ledger[k - 1].timestamp as nat
    } else {
        latest(ledger, (k - 1) as nat)
    }
}

/// The timestamps of the first `k` transactions.
pub open spec fn timestamps_among(ledger: Ledger, k: nat) -> Set<usize>
    decreases k,
{
    if k == 0 {
        Set::empty()
    } else {
        timestamps_among(ledger, (k - 1) as nat).insert(ledger[k - 1].timestamp as usize)
    }
}

/// How many of the two references of `t` lead to one of the first `m`
/// vertices.
pub open spec fn hits(t: TransactionView, m: nat) -> nat
    decreases m,
{
    if m == 0 {
        0
    } else {
        hits(t, (m - 1) as nat) + times_referred(t, m as int)
    }
}

/// A transaction has two references.
pub proof fn lemma_hits(t: TransactionView, m: nat)
    ensures
        hits(t, m) == (if 1 <= t.left <= m {
            1nat
        } else {
            0nat
        }) + (if 1 <= t.right <= m {
            1nat
        } else {
            0nat
        }),
        hits(t, m) <= 2,
    decreases m,
{
    if m > 0 {
        lemma_hits(t, (m - 1) as nat);
    }
}

/// No more references lead to vertices than the transactions have: two
/// each.
pub proof fn lemma_references_to_first(ledger: Ledger, m: nat)
    ensures
        references_to_first(ledger, m) <= 2 * ledger.len(),
    decreases ledger.len(), m,
{
    if ledger.len() == 0 {
        if m > 0 {
            lemma_references_to_first(ledger, (m - 1) as nat);
        }
    } else {
        lemma_references_split(ledger, m);
        lemma_references_to_first(ledger.drop_last(), m);
        lemma_hits(ledger.last(), m);
    }
}

/// The last transaction adds its own references to the count.
proof fn lemma_references_split(ledger: Ledger, m: nat)
    requires
        ledger.len() > 0,
    ensures
        references_to_first(ledger, m) == references_to_first(ledger.drop_last(), m) + hits(
            ledger.last(),
            m,
        ),
    decreases m,
{
    if m > 0 {
        lemma_references_split(ledger, (m - 1) as nat);
    }
}

/// The sum of depths grows with the number of transactions.
pub proof fn lemma_depth_sum_grows(ledger: Ledger, k: nat, more: nat)
    requires
        k <= more,
    ensures
        depth_sum(ledger, k) <= depth_sum(ledger, more),
    decreases more,
{
    if k < more {
        lemma_depth_sum_grows(ledger, k, (more - 1) as nat);
    }
}

/// What a pass over the whole ledger finds, in integers.
#[derive(Clone, Copy, PartialEq, Eq, Debug)]
pub struct Totals {
    /// The number of transactions.
    pub transactions: usize,
    /// The sum of the depths of the transactions.
    pub sum_of_depths: usize,
    /// The number of different depths.
    pub unique_depths: usize,
    /// The number of references to the vertices of the ledger.
    pub total_references: usize,
    /// The largest timestamp.
    pub max_timestamp: usize,
    /// The number of different timestamps.
    pub unique_timestamps: usize,
}

impl Totals {
    /// Hands every transaction of the ledger to each of the four
    /// accumulators, in the order of the ledger, and gathers what they hold
    /// at the end.
    pub fn collect(graph: &Graph) -> (totals: Totals)
        requires
            graph.wf(),
            complete(graph@),
            acyclic(graph@),
            depth_sum(graph@, graph@.len()) <= usize::MAX,
        ensures
            totals.transactions == graph@.len(),
            totals.sum_of_depths == depth_sum(graph@, graph@.len()),
            totals.unique_depths == depths_among(graph@, graph@.len()).len(),
            totals.total_references == references_to_first(graph@, graph@.len() + 1),
            totals.max_timestamp == latest(graph@, graph@.len()),
            totals.unique_timestamps == timestamps_among(graph@, graph@.len()).len(),
    {
        let n = graph.len();
        let transactions = graph.transactions();
        let mut depths = Depths::new(graph);
        let mut references = InReferences::new(graph);
        let mut units = TimeUnits::new();
        let mut stamps = Timestamps::new(graph);
        proof {
            graph.lemma_wf();
        }
        let mut i: usize = 0;
        while i < n
            invariant
                graph.wf(),
                complete(graph@),
                acyclic(graph@),
                numbered(graph@),
                2 * n <= usize::MAX,
                n == graph@.len(),
                depth_sum(graph@, n as nat) <= usize::MAX,
                transactions@.map_values(|t: Transaction| t@) == graph@,
                i <= n,
                depths.wf(),
                depths.graph() == graph,
                references.graph() == graph,
                depths@.sum == depth_sum(graph@, i as nat),
                depths@.depths == depths_among(graph@, i as nat),
                references@ == if i == 0 {
                    None::<nat>
                } else {
                    Some(references_to_first(graph@, (i + 1) as nat))
                },
                units@ == latest(graph@, i as nat),
                stamps@ == timestamps_among(graph@, i as nat),
            decreases n - i,
        {
            let t = &transactions[i];
            assert(t@ == graph@[i as int]) by {
                assert(transactions@.map_values(|t: Transaction| t@)[i as int] == transactions@[i as int]@);
            }
            proof {
                lemma_depth_sum_grows(graph@, (i + 1) as nat, n as nat);
                lemma_references_to_first(graph@, (i + 2) as nat);
                assert(references_to_first(graph@, 2) == count_of(graph@, 1) + count_of(graph@, 2)) by {
                    assert(references_to_first(graph@, 1) == references_to_first(graph@, 0) + count_of(
                        graph@,
                        1,
                    ));
                }
            }
            depths.accumulate(t);
            references.accumulate(t);
            units.accumulate(t);
            stamps.accumulate(t);
            i += 1;
        }
        proof {
            assert(references_to_first(graph@, 1) == references_to_first(graph@, 0) + count_of(
                graph@,
                1,
            ));
            if n == 0 {
                lemma_count_of(graph@, 1);
            }
        }
        Totals {
            transactions: n,
            sum_of_depths: depths.sum_of_depths(),
            unique_depths: depths.unique_depths(),
            total_references: references.total_references(),
            max_timestamp: units.max_timestamp(),
            unique_timestamps: stamps.unique_timestamps(),
        }
    }
}

} // verus!
