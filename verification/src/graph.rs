//! The ledger in memory: its transactions, and for every vertex the
//! transactions that refer to it.

use crate::id::Id;
use crate::id::NonRootId;
use crate::ledger::complete;
use crate::ledger::count_of;
use crate::ledger::lemma_count_of;
use crate::ledger::lemma_sources_of;
use crate::ledger::numbered;
use crate::ledger::sources_of;
use crate::ledger::times_referred;
use crate::ledger::Ledger;
use crate::text::decimal_usize;
use crate::text::parse_failure;
use crate::text::parse_usize;
use crate::transaction;
use crate::transaction::Transaction;
use std::collections::HashMap;
use std::num::ParseIntError;
use vstd::prelude::*;
use vstd::std_specs::hash::*;

verus! {

/// Why lines of text describe no ledger.
#[derive(PartialEq, Eq, Debug)]
pub enum Error {
    /// There is no line at all, so nothing says how many transactions follow.
    MissingNumberOfTransactions,
    /// The first line spells no number.
    InvalidNumberOfTransactions(ParseIntError),
    /// More lines follow the first than it announces.
    TooManyTransactions,
    /// Fewer lines follow the first than it announces.
    TooLittleTransactions,
    /// A line describes no transaction.
    InvalidTransaction(transaction::Error),
    /// The left reference of a transaction lies beyond the last vertex that
    /// the ledger can have: the transaction, the reference, and that vertex.
    InvalidLeft(NonRootId, Id, usize),
    /// The right reference of a transaction lies beyond the last vertex that
    /// the ledger can have: the transaction, the reference, and that vertex.
    InvalidRight(NonRootId, Id, usize),
}

/// What the line `line` adds to a ledger that announces `n` transactions,
/// where `i` lines stand between the first line and this one: a
/// transaction with the identifier `i + 2`, whose references lead no further
/// than `n + 1`; or the fault that was found.
pub open spec fn entry(n: usize, i: int, line: Seq<char>) -> Result<Transaction, Error> {
    if i >= n {
        Err(Error::TooManyTransactions)
    } else {
        match transaction::parsed((i + 2) as usize, line) {
            Err(e) => Err(Error::InvalidTransaction(e)),
            Ok(t) => if t@.left > n + 1 {
                Err(
                    Error::InvalidLeft(
                        NonRootId::of((i + 2) as usize),
                        Id::of(t@.left as usize),
                        (n + 1) as usize,
                    ),
                )
            } else if t@.right > n + 1 {
                Err(
                    Error::InvalidRight(
                        NonRootId::of((i + 2) as usize),
                        Id::of(t@.right as usize),
                        (n + 1) as usize,
                    ),
                )
            } else {
                Ok(t)
            },
        }
    }
}

/// The ledger that the `k` lines after the first describe, where the first
/// announces `n` transactions; or the first fault, in the order of the lines.
pub open spec fn entries(n: usize, lines: Seq<Seq<char>>, k: nat) -> Result<Ledger, Error>
    decreases k,
{
    if k == 0 {
        Ok(Ledger::empty())
    } else {
        match entries(n, lines, (k - 1) as nat) {
            Err(e) => Err(e),
            Ok(ledger) => match entry(n, k - 1, lines[k as int]) {
                Err(e) => Err(e),
                Ok(t) => Ok(ledger.push(t@)),
            },
        }
    }
}

/// The ledger that the lines describe: the first line spells the number of
/// transactions, and each line after it describes one. Or the first fault
/// found: in the first line, then in the lines after it in their order, then
/// in their number.
pub open spec fn parsed(lines: Seq<Seq<char>>) -> Result<Ledger, Error> {
    if lines.len() == 0 {
        Err(Error::MissingNumberOfTransactions)
    } else {
        match decimal_usize(lines[0]) {
            None => Err(Error::InvalidNumberOfTransactions(parse_failure(lines[0]))),
            Some(n) => match entries(n, lines, (lines.len() - 1) as nat) {
                Err(e) => Err(e),
                Ok(ledger) => if ledger.len() < n {
                    Err(Error::TooLittleTransactions)
                } else {
                    Ok(ledger)
                },
            },
        }
    }
}

/// A fault found in the first `k` lines is the fault of any more lines.
pub proof fn lemma_entries_fault(n: usize, lines: Seq<Seq<char>>, k: nat, more: nat)
    requires
        k <= more,
        entries(n, lines, k) is Err,
    ensures
        entries(n, lines, more) == entries(n, lines, k),
    decreases more,
{
    if k < more {
        lemma_entries_fault(n, lines, k, (more - 1) as nat);
    }
}

/// What a line adds, where it adds a transaction: the transaction has the
/// identifier that its place gives it, and its references are vertices of a
/// ledger of `n` transactions.
pub proof fn lemma_entry(n: usize, i: int, line: Seq<char>)
    requires
        0 <= i,
        i + 2 <= usize::MAX,
        entry(n, i, line) is Ok,
    ensures
        i < n,
        entry(n, i, line).unwrap()@.id == i + 2,
        1 <= entry(n, i, line).unwrap()@.left <= n + 1,
        1 <= entry(n, i, line).unwrap()@.right <= n + 1,
        entry(n, i, line).unwrap()@.left <= usize::MAX,
        entry(n, i, line).unwrap()@.right <= usize::MAX,
{
    broadcast use NonRootId::lemma_of_view, Transaction::lemma_of_view;

}

/// The ledger that the first `k` lines describe has `k` transactions, no
/// more than were announced, numbered from 2, with references that lead to
/// vertices of a ledger of `n` transactions.
pub proof fn lemma_entries(n: usize, lines: Seq<Seq<char>>, k: nat)
    requires
        k < lines.len() <= usize::MAX,
        entries(n, lines, k) is Ok,
    ensures
        entries(n, lines, k).unwrap().len() == k,
        k <= n,
        numbered(entries(n, lines, k).unwrap()),
        forall|i: int|
            0 <= i < k ==> {
                &&& (#[trigger] entries(n, lines, k).unwrap()[i]).left <= n + 1
                &&& entries(n, lines, k).unwrap()[i].right <= n + 1
            },
    decreases k,
{
    if k > 0 {
        lemma_entries(n, lines, (k - 1) as nat);
        lemma_entry(n, k - 1, lines[k as int]);
        let before = entries(n, lines, (k - 1) as nat).unwrap();
        let now = entries(n, lines, k).unwrap();
        assert forall|i: int| 0 <= i < k implies {
            &&& (#[trigger] now[i]).id == i + 2
            &&& 1 <= now[i].left <= usize::MAX
            &&& 1 <= now[i].right <= usize::MAX
            &&& now[i].left <= n + 1
            &&& now[i].right <= n + 1
        } by {
            if i < k - 1 {
                assert(now[i] == before[i]);
            }
        }
    }
}

/// Lines that describe a ledger describe one with as many transactions as
/// the first line announces, which is one for each line after the first; the
/// transactions are numbered from 2 in the order of the lines, and every
/// reference leads to a vertex of the ledger.
pub proof fn lemma_parsed(lines: Seq<Seq<char>>)
    requires
        lines.len() <= usize::MAX,
        parsed(lines) is Ok,
    ensures
        lines.len() > 0,
        decimal_usize(lines[0]) == Some(parsed(lines).unwrap().len() as usize),
        parsed(lines).unwrap().len() == lines.len() - 1,
        numbered(parsed(lines).unwrap()),
        complete(parsed(lines).unwrap()),
{
    let n = decimal_usize(lines[0]).unwrap();
    lemma_entries(n, lines, (lines.len() - 1) as nat);
}

/// What is known of the references to one vertex: the transactions that
/// refer to it, each once and in the order in which they were added, and the
/// number of references, which counts a transaction twice where both of its
/// references lead to the vertex.
pub struct InRefsView {
    pub sources: Seq<int>,
    pub count: nat,
}

/// The references to one vertex.
#[derive(PartialEq, Eq, Debug)]
pub struct InRefs {
    sources: Vec<NonRootId>,
    count: usize,
}

impl View for InRefs {
    type V = InRefsView;

    closed spec fn view(&self) -> InRefsView {
        InRefsView {
            sources: self.sources@.map_values(|id: NonRootId| id@),
            count: self.count as nat,
        }
    }
}

impl Default for InRefs {
    /// No reference at all.
    fn default() -> (refs: InRefs)
        ensures
            refs@ == (InRefsView { sources: Seq::empty(), count: 0 }),
    {
        let refs = InRefs { sources: Vec::new(), count: 0 };
        assert(refs@.sources =~= Seq::empty());
        refs
    }
}

impl InRefs {
    /// The number of references, a transaction that refers twice counting
    /// twice.
    pub fn count(&self) -> (count: usize)
        ensures
            count == self@.count,
    {
        self.count
    }

    /// The transactions that refer to the vertex, each once.
    pub fn sources(&self) -> (sources: &Vec<NonRootId>)
        ensures
            sources@.map_values(|id: NonRootId| id@) == self@.sources,
    {
        &self.sources
    }

    /// Records one more reference, made by the transaction `id`. The
    /// transaction joins the sources unless it is the one that joined last.
    pub fn add(&mut self, id: NonRootId)
        requires
            old(self)@.count < usize::MAX,
        ensures
            final(self)@.count == old(self)@.count + 1,
            final(self)@.sources == if old(self)@.sources.len() > 0 && old(self)@.sources.last()
                == id@ {
                old(self)@.sources
            } else {
                old(self)@.sources.push(id@)
            },
    {
        let n = self.sources.len();
        if n == 0 || self.sources[n - 1].value() != id.value() {
            self.sources.push(id);
            assert(self@.sources =~= old(self)@.sources.push(id@));
        }
        self.count += 1;
    }
}

/// The ledger: the transactions in the order in which they were added, and
/// an index from each vertex to the references that lead to it.
#[derive(PartialEq, Eq, Debug)]
pub struct Graph {
    inner: Vec<Transaction>,
    inrefs: HashMap<usize, InRefs>,
}

impl View for Graph {
    type V = Ledger;

    closed spec fn view(&self) -> Ledger {
        self.inner@.map_values(|t: Transaction| t@)
    }
}

impl Default for Graph {
    /// The ledger without transactions.
    fn default() -> (graph: Graph)
        ensures
            graph.wf(),
            graph@ == Ledger::empty(),
    {
        Graph::with_capacity(0)
    }
}

impl Graph {
    /// Whether the ledger is in order: its transactions are numbered from 2,
    /// the index says of each vertex what the transactions say, and the
    /// ledger is short enough for its counts to fit the machine's integers.
    pub closed spec fn wf(&self) -> bool {
        &&& numbered(self@)
        &&& 2 * self@.len() <= usize::MAX
        &&& forall|v: usize| #[trigger] self.inrefs@.contains_key(v) <==> count_of(self@, v as int) > 0
        &&& forall|v: usize| #[trigger]
            self.inrefs@.contains_key(v) ==> self.inrefs@[v]@ == (InRefsView {
                sources: sources_of(self@, v as int),
                count: count_of(self@, v as int),
            })
    }

    /// What `wf` says of the transactions.
    pub proof fn lemma_wf(&self)
        requires
            self.wf(),
        ensures
            numbered(self@),
            2 * self@.len() <= usize::MAX,
    {
    }

    /// The ledger without transactions, with room for `cap` of them.
    pub fn with_capacity(cap: usize) -> (graph: Graph)
        ensures
            graph.wf(),
            graph@ == Ledger::empty(),
    {
        broadcast use group_hash_axioms;

        let graph = Graph { inner: Vec::with_capacity(cap), inrefs: HashMap::new() };
        assert(graph@ =~= Ledger::empty());
        graph
    }

    /// The number of transactions.
    pub fn len(&self) -> (len: usize)
        ensures
            len == self@.len(),
    {
        self.inner.len()
    }

    /// Whether the ledger holds no transaction.
    pub fn is_empty(&self) -> (empty: bool)
        ensures
            empty == (self@.len() == 0),
    {
        self.inner.len() == 0
    }

    /// The transactions, in the order in which they were added.
    pub fn transactions(&self) -> (transactions: &Vec<Transaction>)
        ensures
            transactions@.map_values(|t: Transaction| t@) == self@,
    {
        &self.inner
    }

    /// The transaction with the identifier `id`.
    pub fn index(&self, id: NonRootId) -> (transaction: &Transaction)
        requires
            self.wf(),
            id@ <= self@.len() + 1,
        ensures
            transaction@ == self@[id@ - 2],
            transaction@.id == id@,
    {
        let at = id.value() - 2;
        assert(self@[at as int] == self.inner@[at as int]@);
        &self.inner[at]
    }

    /// The references that lead to the vertex `id`; `None` where there is
    /// none.
    pub fn in_refs(&self, id: Id) -> (refs: Option<&InRefs>)
        requires
            self.wf(),
        ensures
            match refs {
                Some(refs) => {
                    &&& count_of(self@, id@) > 0
                    &&& refs@.count == count_of(self@, id@)
                    &&& refs@.sources == sources_of(self@, id@)
                },
                None => count_of(self@, id@) == 0,
            },
    {
        broadcast use group_hash_axioms;

        let key = id.value();
        let refs = self.inrefs.get(&key);
        proof {
            if refs is Some {
                assert(self.inrefs@.contains_key(key));
            }
        }
        refs
    }

    /// Adds a transaction at the end of the ledger, and records its two
    /// references in the index.
    pub fn push(&mut self, transaction: Transaction)
        requires
            old(self).wf(),
            transaction@.id == old(self)@.len() + 2,
            2 * (old(self)@.len() + 1) <= usize::MAX,
        ensures
            final(self).wf(),
            final(self)@ == old(self)@.push(transaction@),
    {
        broadcast use group_hash_axioms;

        let id = transaction.id();
        let left = transaction.left().value();
        let right = transaction.right().value();
        let ghost before = self@;
        let ghost after = before.push(transaction@);
        let ghost index = self.inrefs@;
        proof {
            assert(after.drop_last() =~= before);
            lemma_count_of(before, left as int);
            lemma_count_of(before, right as int);
            lemma_sources_of(before, left as int);
            lemma_sources_of(before, right as int);
        }
        let mut to_left = match self.inrefs.remove(&left) {
            Some(refs) => refs,
            None => InRefs::default(),
        };
        proof {
            assert(to_left@.sources == sources_of(before, left as int));
            assert(to_left@.count == count_of(before, left as int));
            if to_left@.sources.len() > 0 {
                let last = sources_of(before, left as int)[to_left@.sources.len() - 1];
                assert(crate::ledger::refers(before, last, left as int));
            }
        }
        to_left.add(id);
        assert(to_left@.sources == sources_of(before, left as int).push(id@));
        self.inrefs.insert(left, to_left);
        let ghost halfway = self.inrefs@;
        let mut to_right = match self.inrefs.remove(&right) {
            Some(refs) => refs,
            None => InRefs::default(),
        };
        proof {
            if left != right {
                assert(halfway.contains_key(right) == index.contains_key(right));
                assert(to_right@.sources == sources_of(before, right as int));
                assert(to_right@.count == count_of(before, right as int));
                if to_right@.sources.len() > 0 {
                    let last = sources_of(before, right as int)[to_right@.sources.len() - 1];
                    assert(crate::ledger::refers(before, last, right as int));
                }
            } else {
                assert(to_right@.sources == sources_of(before, left as int).push(id@));
                assert(to_right@.sources.last() == id@);
            }
        }
        to_right.add(id);
        self.inrefs.insert(right, to_right);
        self.inner.push(transaction);
        proof {
            assert(self@ =~= after);
            assert(times_referred(transaction@, left as int) > 0);
            assert(times_referred(transaction@, right as int) > 0);
            assert forall|v: usize| #[trigger]
                self.inrefs@.contains_key(v) <==> count_of(after, v as int) > 0 by {
                assert(index.contains_key(v) <==> count_of(before, v as int) > 0);
            }
            assert forall|v: usize| #[trigger] self.inrefs@.contains_key(v) implies self.inrefs@[v]@
                == (InRefsView {
                sources: sources_of(after, v as int),
                count: count_of(after, v as int),
            }) by {
                if v == right {
                    assert(self.inrefs@[v] == to_right);
                } else if v == left {
                    assert(self.inrefs@[v] == to_left);
                } else {
                    assert(index.contains_key(v));
                    assert(self.inrefs@[v] == index[v]);
                    assert(times_referred(transaction@, v as int) == 0);
                }
            }
        }
    }

    /// Reads a ledger from lines of text: the number of transactions, then
    /// one line for each.
    pub fn parse(lines: &Vec<String>) -> (result: Result<Graph, Error>)
        requires
            2 * lines@.len() <= usize::MAX,
        ensures
            match result {
                Ok(graph) => graph.wf() && complete(graph@) && parsed(
                    lines@.map_values(|line: String| line@),
                ) == Ok::<Ledger, Error>(graph@),
                Err(e) => parsed(lines@.map_values(|line: String| line@)) == Err::<Ledger, Error>(e),
            },
    {
        let ghost text = lines@.map_values(|line: String| line@);
        if lines.len() == 0 {
            return Err(Error::MissingNumberOfTransactions);
        }
        assert(text[0] == lines@[0]@);
        let n = match parse_usize(lines[0].as_str()) {
            Err(e) => { return Err(Error::InvalidNumberOfTransactions(e)); },
            Ok(n) => n,
        };
        let total = lines.len() - 1;
        let mut graph = Graph::with_capacity(if n < total {
            n
        } else {
            total
        });
        let mut i: usize = 0;
        while i < total
            invariant
                total == lines@.len() - 1,
                2 * lines@.len() <= usize::MAX,
                text == lines@.map_values(|line: String| line@),
                decimal_usize(text[0]) == Some(n),
                i <= total,
                i <= n,
                graph.wf(),
                graph@.len() == i,
                entries(n, text, i as nat) == Ok::<Ledger, Error>(graph@),
            decreases total - i,
        {
            assert(text[i + 1] == lines@[i + 1]@);
            let ghost here = entry(n, i as int, text[i + 1]);
            proof {
                assert(entries(n, text, (i + 1) as nat) == match here {
                    Err(e) => Err::<Ledger, Error>(e),
                    Ok(t) => Ok(graph@.push(t@)),
                });
                if here is Err {
                    lemma_entries_fault(n, text, (i + 1) as nat, total as nat);
                }
            }
            if i >= n {
                return Err(Error::TooManyTransactions);
            }
            let t = match Transaction::try_from((i + 2, &lines[i + 1])) {
                Err(e) => { return Err(Error::InvalidTransaction(e)); },
                Ok(t) => t,
            };
            let id = t.id();
            proof {
                broadcast use NonRootId::lemma_of_view, Transaction::lemma_of_view;

                assert(t@.id == i + 2);
                id.lemma_view_injective(NonRootId::of((i + 2) as usize));
            }
            let left = t.left();
            if left.value() - 1 > n {
                return Err(Error::InvalidLeft(id, left, n + 1));
            }
            let right = t.right();
            if right.value() - 1 > n {
                return Err(Error::InvalidRight(id, right, n + 1));
            }
            graph.push(t);
            i += 1;
        }
        if graph.len() < n {
            return Err(Error::TooLittleTransactions);
        }
        proof {
            lemma_parsed(text);
        }
        Ok(graph)
    }
}

} // verus!
