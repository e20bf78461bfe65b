//! Checks of the shape of a ledger: whether every transaction leads to the
//! root, whether its references form a cycle, and whether its vertices can be
//! coloured with two colours.
//!
//! Each check walks from the root against the direction of the references:
//! from a vertex to the transactions that refer to it.

use crate::graph::Error;
use crate::graph::Graph;
use crate::id::Id;
use crate::id::NonRootId;
use crate::ledger::is_transaction;
use crate::ledger::is_vertex;
use crate::ledger::lemma_count_of;
use crate::ledger::lemma_distinct_vertices;
use crate::ledger::lemma_marks_cover;
use crate::ledger::lemma_reaches_through;
use crate::ledger::lemma_sources_of;
use crate::ledger::marked;
use crate::ledger::numbered;
use crate::ledger::reaches_root;
use crate::ledger::reaches_root_in;
use crate::ledger::refers;
use crate::ledger::sources_of;
use crate::ledger::acyclic;
use crate::ledger::bipartite;
use crate::ledger::complete;
use crate::ledger::is_coloring;
use crate::ledger::connected;
use crate::ledger::has_cycle;
use crate::ledger::lemma_cycle_is_not_acyclic;
use crate::ledger::is_ranking;
use crate::ledger::times_referred;
use crate::ledger::Ledger;
use crate::transaction::Transaction;
use crate::transaction::TransactionView;
use vstd::prelude::*;

verus! {

/// Whether `list` names the vertices that the walk `order` has found.
spec fn lists(list: Seq<int>, order: Seq<Id>) -> bool {
    &&& list.len() == order.len()
    &&& forall|k: int| 0 <= k < list.len() ==> #[trigger] list[k] == order[k]@
}

/// What a walk from the root keeps true of the vertices found so far:
/// they are vertices, each found once and marked, each marked vertex is among
/// them, and each leads to the root.
spec fn walk(ledger: Ledger, marks: Seq<bool>, list: Seq<int>) -> bool {
    &&& marks.len() == ledger.len() + 1
    &&& list.no_duplicates()
    &&& list.len() > 0
    &&& list[0] == 1
    &&& forall|k: int|
        0 <= k < list.len() ==> {
            &&& is_vertex(ledger, #[trigger] list[k])
            &&& marked(marks, list[k])
            &&& reaches_root(ledger, list[k])
        }
    &&& forall|v: int| #[trigger] marked(marks, v) ==> list.contains(v)
}

/// Whether every transaction that refers to one of the first `head` vertices
/// of `list` is marked.
spec fn sources_marked(ledger: Ledger, marks: Seq<bool>, list: Seq<int>, head: int) -> bool {
    forall|k: int, t: int|
        0 <= k < head && #[trigger] refers(ledger, t, list[k]) ==> marked(marks, t)
}

/// A vertex that is not marked yet can join a walk.
proof fn lemma_walk_grows(ledger: Ledger, marks: Seq<bool>, list: Seq<int>, t: int, v: int)
    requires
        walk(ledger, marks, list),
        list.contains(v),
        refers(ledger, t, v),
        !marked(marks, t),
    ensures
        walk(ledger, marks.update(t - 1, true), list.push(t)),
        list.len() + 1 <= ledger.len() + 1,
{
    let grown = list.push(t);
    let marks2 = marks.update(t - 1, true);
    let k = choose|k: int| 0 <= k < list.len() && list[k] == v;
    assert(reaches_root(ledger, list[k]));
    let hops = choose|hops: nat| reaches_root_in(ledger, v, hops);
    lemma_reaches_through(ledger, t, v, hops);
    assert forall|j: int| 0 <= j < list.len() implies list[j] != t by {
        assert(marked(marks, list[j]));
    }
    assert(grown.no_duplicates());
    assert forall|w: int| #[trigger] marked(marks2, w) implies grown.contains(w) by {
        if w == t {
            assert(grown[list.len() as int] == t);
        } else {
            assert(marked(marks, w));
            let j = choose|j: int| 0 <= j < list.len() && list[j] == w;
            assert(grown[j] == w);
        }
    }
    assert forall|j: int| 0 <= j < grown.len() implies {
        &&& is_vertex(ledger, #[trigger] grown[j])
        &&& marked(marks2, grown[j])
        &&& reaches_root(ledger, grown[j])
    } by {
        if j < list.len() {
            assert(grown[j] == list[j]);
            assert(marked(marks, list[j]));
        }
    }
    lemma_distinct_vertices(ledger, grown);
}

/// How many of the two references of `t` lead to a vertex that is not among
/// `done`.
spec fn open_refs(ledger: Ledger, t: TransactionView, done: Seq<int>) -> nat {
    (if is_vertex(ledger, t.left) && !done.contains(t.left) {
        1nat
    } else {
        0nat
    }) + (if is_vertex(ledger, t.right) && !done.contains(t.right) {
        1nat
    } else {
        0nat
    })
}

/// How many of the two references of `t` lead to a vertex.
spec fn vertex_refs(ledger: Ledger, t: TransactionView) -> nat {
    open_refs(ledger, t, Seq::empty())
}

/// What a walk that ranks the vertices keeps true of the vertices found so
/// far: they are vertices, each found once, each leads to the root, a
/// transaction is among them when the last of its references to a vertex has
/// been followed, and those vertices were all found before it.
spec fn ranking_walk(ledger: Ledger, pending: Seq<u8>, list: Seq<int>) -> bool {
    &&& pending.len() == ledger.len()
    &&& list.no_duplicates()
    &&& list.len() > 0
    &&& list[0] == 1
    &&& forall|k: int|
        0 <= k < list.len() ==> {
            &&& is_vertex(ledger, #[trigger] list[k])
            &&& reaches_root(ledger, list[k])
        }
    &&& forall|t: int|
        is_transaction(ledger, t) ==> (#[trigger] list.contains(t) <==> pending[t - 2] == 0
            && vertex_refs(ledger, ledger[t - 2]) > 0)
    &&& forall|k: int, w: int|
        0 <= k < list.len() && #[trigger] refers(ledger, list[k], w) && is_vertex(ledger, w)
            ==> found_before(list, k, w)
}

/// Whether `w` stands in `list` before the position `k`.
spec fn found_before(list: Seq<int>, k: int, w: int) -> bool {
    exists|q: int| 0 <= q < k && q < list.len() && list[q] == w
}

/// Whether `pending` counts, for every transaction, the references to
/// vertices that are not among the first `head` of `list`; for the
/// transactions among `handled`, not among the first `head + 1`.
spec fn counts_open(
    ledger: Ledger,
    pending: Seq<u8>,
    list: Seq<int>,
    head: int,
    handled: Seq<int>,
) -> bool {
    forall|t: int|
        is_transaction(ledger, t) ==> #[trigger] pending[t - 2] == open_refs(
            ledger,
            ledger[t - 2],
            if handled.contains(t) {
                list.take(head + 1)
            } else {
                list.take(head)
            },
        )
}

/// Following the references to one more vertex closes as many references of
/// a transaction as lead to that vertex.
proof fn lemma_open_refs_step(ledger: Ledger, t: TransactionView, list: Seq<int>, head: int)
    requires
        0 <= head < list.len(),
        list.no_duplicates(),
        is_vertex(ledger, list[head]),
    ensures
        open_refs(ledger, t, list.take(head + 1)) + times_referred(t, list[head]) == open_refs(
            ledger,
            t,
            list.take(head),
        ),
{
    let v = list[head];
    let before = list.take(head);
    let after = list.take(head + 1);
    assert(after =~= before.push(v));
    assert(!before.contains(v)) by {
        if before.contains(v) {
            let q = choose|q: int| 0 <= q < before.len() && before[q] == v;
            assert(list[q] == v);
        }
    }
    assert forall|w: int| after.contains(w) <==> before.contains(w) || w == v by {
        if before.contains(w) {
            let q = choose|q: int| 0 <= q < before.len() && before[q] == w;
            assert(after[q] == w);
        }
        if w == v {
            assert(after[head] == v);
        }
        if after.contains(w) {
            let q = choose|q: int| 0 <= q < after.len() && after[q] == w;
            if q < head {
                assert(before[q] == w);
            }
        }
    }
}

/// A transaction whose last open reference was just followed can join the
/// walk.
proof fn lemma_ranking_walk_grows(
    ledger: Ledger,
    pending: Seq<u8>,
    list: Seq<int>,
    head: int,
    t: int,
)
    requires
        ranking_walk(ledger, pending, list),
        0 <= head < list.len(),
        refers(ledger, t, list[head]),
        pending[t - 2] != 0,
        open_refs(ledger, ledger[t - 2], list.take(head + 1)) == 0,
    ensures
        ranking_walk(ledger, pending.update(t - 2, 0u8), list.push(t)),
        list.len() + 1 <= ledger.len() + 1,
{
    let v = list[head];
    let grown = list.push(t);
    let pending2 = pending.update(t - 2, 0u8);
    assert(reaches_root(ledger, list[head]));
    let hops = choose|hops: nat| reaches_root_in(ledger, v, hops);
    lemma_reaches_through(ledger, t, v, hops);
    assert(!list.contains(t));
    assert(grown.no_duplicates());
    assert forall|k: int| 0 <= k < grown.len() implies {
        &&& is_vertex(ledger, #[trigger] grown[k])
        &&& reaches_root(ledger, grown[k])
    } by {
        if k < list.len() {
            assert(grown[k] == list[k]);
        }
    }
    assert(vertex_refs(ledger, ledger[t - 2]) > 0) by {
        assert(is_vertex(ledger, v));
        assert(!Seq::<int>::empty().contains(v));
    }
    assert forall|u: int| is_transaction(ledger, u) implies (#[trigger] grown.contains(u)
        <==> pending2[u - 2] == 0 && vertex_refs(ledger, ledger[u - 2]) > 0) by {
        if u == t {
            assert(grown[list.len() as int] == t);
        } else {
            if list.contains(u) {
                let q = choose|q: int| 0 <= q < list.len() && list[q] == u;
                assert(grown[q] == u);
            }
            if grown.contains(u) {
                let q = choose|q: int| 0 <= q < grown.len() && grown[q] == u;
                assert(list[q] == u);
            }
        }
    }
    assert forall|k: int, w: int|
        0 <= k < grown.len() && #[trigger] refers(ledger, grown[k], w) && is_vertex(
            ledger,
            w,
        ) implies found_before(grown, k, w) by {
        if k < list.len() {
            assert(grown[k] == list[k]);
            assert(found_before(list, k, w));
            let q = choose|q: int| 0 <= q < k && q < list.len() && list[q] == w;
            assert(grown[q] == w);
        } else {
            let done = list.take(head + 1);
            assert(done.contains(w));
            let q = choose|q: int| 0 <= q < done.len() && done[q] == w;
            assert(grown[q] == w);
        }
    }
    lemma_distinct_vertices(ledger, grown);
}

/// A walk that found every vertex shows that the ledger is acyclic: the
/// place at which a transaction was found ranks it.
proof fn lemma_full_walk_ranks(ledger: Ledger, pending: Seq<u8>, list: Seq<int>)
    requires
        ranking_walk(ledger, pending, list),
        list.len() == ledger.len() + 1,
    ensures
        acyclic(ledger),
        connected(ledger),
{
    lemma_distinct_vertices(ledger, list);
    let rank = Seq::new(
        ledger.len(),
        |i: int| ((choose|p: int| 0 <= p < list.len() && list[p] == i + 2) - 1) as nat,
    );
    assert forall|t: int| is_transaction(ledger, t) implies {
        &&& reaches_root(ledger, t)
        &&& exists|p: int| 1 <= p < list.len() && list[p] == t && rank[t - 2] == p - 1
    } by {
        assert(is_vertex(ledger, t));
        assert(list.contains(t));
        let p = choose|p: int| 0 <= p < list.len() && list[p] == t + 2 - 2;
        assert(list[p] == t);
        assert(rank[t - 2] == (p - 1) as nat);
        assert(p != 0);
    }
    assert forall|t: int, v: int|
        is_transaction(ledger, v) && #[trigger] refers(ledger, t, v) implies rank[v - 2] < rank[t
            - 2] by {
        let p = choose|p: int| 1 <= p < list.len() && list[p] == t && rank[t - 2] == p - 1;
        let q = choose|q: int| 1 <= q < list.len() && list[q] == v && rank[v - 2] == q - 1;
        assert(refers(ledger, list[p], v));
        assert(found_before(list, p, v));
        let q2 = choose|q2: int| 0 <= q2 < p && q2 < list.len() && list[q2] == v;
        assert(q2 == q);
    }
    assert forall|i: int| 0 <= i < rank.len() implies #[trigger] rank[i] < ledger.len() by {
        assert(is_transaction(ledger, i + 2));
        let p = choose|p: int| 1 <= p < list.len() && list[p] == i + 2 && rank[i + 2 - 2] == p - 1;
    }
    assert(is_ranking(ledger, rank));
}

/// In a ledger that is connected and acyclic, a walk that has followed the
/// references to every vertex it found has found every transaction.
proof fn lemma_finished_walk_is_full(
    ledger: Ledger,
    pending: Seq<u8>,
    list: Seq<int>,
    rank: Seq<nat>,
    t: int,
)
    requires
        ranking_walk(ledger, pending, list),
        counts_open(ledger, pending, list, list.len() as int, Seq::empty()),
        is_ranking(ledger, rank),
        connected(ledger),
        is_transaction(ledger, t),
    ensures
        list.contains(t),
    decreases rank[t - 2],
{
    let tv = ledger[t - 2];
    assert(list.take(list.len() as int) =~= list);
    assert(!Seq::<int>::empty().contains(t));
    assert(pending[t - 2] == open_refs(ledger, tv, list));
    if is_vertex(ledger, tv.left) {
        if tv.left == 1 {
            assert(list[0] == 1);
        } else {
            assert(refers(ledger, t, tv.left));
            lemma_finished_walk_is_full(ledger, pending, list, rank, tv.left);
        }
    }
    if is_vertex(ledger, tv.right) {
        if tv.right == 1 {
            assert(list[0] == 1);
        } else {
            assert(refers(ledger, t, tv.right));
            lemma_finished_walk_is_full(ledger, pending, list, rank, tv.right);
        }
    }
    assert(reaches_root(ledger, t));
    let hops = choose|hops: nat| reaches_root_in(ledger, t, hops);
    if reaches_root_in(ledger, tv.left, (hops - 1) as nat) {
        crate::ledger::lemma_reaching_is_vertex(ledger, tv.left, (hops - 1) as nat);
        assert(!Seq::<int>::empty().contains(tv.left));
    } else {
        crate::ledger::lemma_reaching_is_vertex(ledger, tv.right, (hops - 1) as nat);
        assert(!Seq::<int>::empty().contains(tv.right));
    }
}

/// Whether `t` is a transaction that the walk `list` did not find.
spec fn stuck(ledger: Ledger, list: Seq<int>, t: int) -> bool {
    is_transaction(ledger, t) && !list.contains(t)
}

/// A vertex that `t` refers to and that the walk did not find, where there
/// is one.
spec fn next_stuck(ledger: Ledger, list: Seq<int>, t: int) -> int {
    let left = ledger[t - 2].left;
    if is_vertex(ledger, left) && !list.contains(left) {
        left
    } else {
        ledger[t - 2].right
    }
}

/// Whether every transaction that the walk did not find refers to another
/// that it did not find.
spec fn trapped(ledger: Ledger, list: Seq<int>) -> bool {
    forall|t: int| #[trigger]
        stuck(ledger, list, t) ==> stuck(ledger, list, next_stuck(ledger, list, t)) && refers(
            ledger,
            t,
            next_stuck(ledger, list, t),
        )
}

/// Where `k` references lead from `t`, each to a transaction that the walk
/// did not find.
spec fn stuck_walk(ledger: Ledger, list: Seq<int>, t: int, k: nat) -> int
    decreases k,
{
    if k == 0 {
        t
    } else {
        stuck_walk(ledger, list, next_stuck(ledger, list, t), (k - 1) as nat)
    }
}

/// From a transaction that the walk did not find, references lead on and on
/// to such transactions.
proof fn lemma_stuck_walk(ledger: Ledger, list: Seq<int>, t: int, k: nat)
    requires
        trapped(ledger, list),
        stuck(ledger, list, t),
    ensures
        stuck(ledger, list, stuck_walk(ledger, list, t, k)),
        crate::ledger::leads_to(ledger, t, stuck_walk(ledger, list, t, k), k),
    decreases k,
{
    if k > 0 {
        let next = next_stuck(ledger, list, t);
        lemma_stuck_walk(ledger, list, next, (k - 1) as nat);
        assert(refers(ledger, t, next));
    }
}

/// Walking `i` references and then `m` more is walking `i + m`.
proof fn lemma_stuck_walk_on(ledger: Ledger, list: Seq<int>, t: int, i: nat, m: nat)
    ensures
        stuck_walk(ledger, list, t, i + m) == stuck_walk(
            ledger,
            list,
            stuck_walk(ledger, list, t, i),
            m,
        ),
    decreases i,
{
    if i > 0 {
        lemma_stuck_walk_on(ledger, list, next_stuck(ledger, list, t), (i - 1) as nat, m);
        assert(stuck_walk(ledger, list, t, i + m) == stuck_walk(
            ledger,
            list,
            next_stuck(ledger, list, t),
            (i + m - 1) as nat,
        ));
    }
}

/// Where every transaction that the walk did not find refers to another
/// such transaction, and there is one, some transaction leads back to
/// itself: among more transactions than the ledger has, one comes twice.
proof fn lemma_trapped_has_cycle(ledger: Ledger, list: Seq<int>, t: int)
    requires
        trapped(ledger, list),
        stuck(ledger, list, t),
    ensures
        crate::ledger::has_cycle(ledger),
{
    let trail = Seq::new(ledger.len() + 2, |k: int| stuck_walk(ledger, list, t, k as nat));
    assert forall|k: int| 0 <= k < trail.len() implies is_vertex(ledger, #[trigger] trail[k]) by {
        lemma_stuck_walk(ledger, list, t, k as nat);
    }
    if trail.no_duplicates() {
        lemma_distinct_vertices(ledger, trail);
    }
    let (a, b) = choose|a: int, b: int|
        0 <= a < trail.len() && 0 <= b < trail.len() && a != b && trail[a] == trail[b];
    let (i, j) = if a < b {
        (a, b)
    } else {
        (b, a)
    };
    let from = stuck_walk(ledger, list, t, i as nat);
    let m = (j - i) as nat;
    lemma_stuck_walk(ledger, list, t, i as nat);
    lemma_stuck_walk_on(ledger, list, t, i as nat, m);
    lemma_stuck_walk(ledger, list, from, m);
    assert(trail[j] == stuck_walk(ledger, list, t, j as nat));
    assert(trail[i] == from);
    assert(m >= 1 && is_transaction(ledger, from) && crate::ledger::leads_to(ledger, from, from, m));
}

/// In a connected ledger, a finished walk that missed a transaction shows a
/// cycle: each transaction that it missed refers to a transaction that it
/// missed.
proof fn lemma_unfinished_has_cycle(ledger: Ledger, pending: Seq<u8>, list: Seq<int>)
    requires
        ranking_walk(ledger, pending, list),
        counts_open(ledger, pending, list, list.len() as int, Seq::empty()),
        connected(ledger),
        list.len() != ledger.len() + 1,
    ensures
        crate::ledger::has_cycle(ledger),
{
    assert(list.take(list.len() as int) =~= list);
    assert forall|t: int| #[trigger] stuck(ledger, list, t) implies stuck(
        ledger,
        list,
        next_stuck(ledger, list, t),
    ) && refers(ledger, t, next_stuck(ledger, list, t)) by {
        let tv = ledger[t - 2];
        assert(!Seq::<int>::empty().contains(t));
        assert(pending[t - 2] == open_refs(ledger, tv, list));
        assert(reaches_root(ledger, t));
        let hops = choose|hops: nat| reaches_root_in(ledger, t, hops);
        if reaches_root_in(ledger, tv.left, (hops - 1) as nat) {
            crate::ledger::lemma_reaching_is_vertex(ledger, tv.left, (hops - 1) as nat);
            assert(!Seq::<int>::empty().contains(tv.left));
        } else {
            crate::ledger::lemma_reaching_is_vertex(ledger, tv.right, (hops - 1) as nat);
            assert(!Seq::<int>::empty().contains(tv.right));
        }
        assert(vertex_refs(ledger, tv) > 0);
        assert(open_refs(ledger, tv, list) > 0);
        assert(list[0] == 1);
    }
    if forall|v: int| is_vertex(ledger, v) ==> #[trigger] list.contains(v) {
        lemma_distinct_vertices(ledger, list);
    }
    let v = choose|v: int| is_vertex(ledger, v) && !list.contains(v);
    assert(list[0] == 1);
    assert(stuck(ledger, list, v));
    lemma_trapped_has_cycle(ledger, list, v);
}

/// A transaction that still has an open reference stays out of the walk.
proof fn lemma_ranking_walk_waits(ledger: Ledger, pending: Seq<u8>, list: Seq<int>, t: int, left: u8)
    requires
        ranking_walk(ledger, pending, list),
        is_transaction(ledger, t),
        pending[t - 2] != 0,
        left != 0,
    ensures
        ranking_walk(ledger, pending.update(t - 2, left), list),
{
    let pending2 = pending.update(t - 2, left);
    assert forall|u: int| is_transaction(ledger, u) implies (#[trigger] list.contains(u)
        <==> pending2[u - 2] == 0 && vertex_refs(ledger, ledger[u - 2]) > 0) by {
        if u != t {
            assert(pending2[u - 2] == pending[u - 2]);
        }
    }
}

/// Whether every transaction that refers to one of the first `head` vertices
/// of `list` is marked, and has the other colour.
spec fn sources_tinted(
    ledger: Ledger,
    marks: Seq<bool>,
    tints: Seq<bool>,
    list: Seq<int>,
    head: int,
) -> bool {
    forall|k: int, t: int|
        0 <= k < head && #[trigger] refers(ledger, t, list[k]) ==> marked(marks, t) && tints[t - 1]
            != tints[list[k] - 1]
}

/// Whether the colouring `colors` tells the marked vertices apart as `tints`
/// does: a vertex has the root's colour in the one where it has it in the
/// other.
spec fn agrees(marks: Seq<bool>, tints: Seq<bool>, colors: Seq<bool>) -> bool {
    forall|v: int| #[trigger]
        marked(marks, v) ==> ((colors[v - 1] == colors[0]) <==> (tints[v - 1] == tints[0]))
}

/// Whether every colouring of the ledger agrees with `tints` on the marked
/// vertices.
spec fn forced(ledger: Ledger, marks: Seq<bool>, tints: Seq<bool>) -> bool {
    forall|colors: Seq<bool>| #[trigger] is_coloring(ledger, colors) ==> agrees(marks, tints, colors)
}

/// Giving a newly marked transaction the colour that the vertex it refers to
/// has not keeps what is known of the colours.
proof fn lemma_tint_grows(
    ledger: Ledger,
    marks: Seq<bool>,
    tints: Seq<bool>,
    list: Seq<int>,
    head: int,
    t: int,
    v: int,
)
    requires
        walk(ledger, marks, list),
        tints.len() == marks.len(),
        sources_tinted(ledger, marks, tints, list, head),
        forced(ledger, marks, tints),
        0 <= head <= list.len(),
        list.contains(v),
        refers(ledger, t, v),
        !marked(marks, t),
    ensures
        sources_tinted(
            ledger,
            marks.update(t - 1, true),
            tints.update(t - 1, !tints[v - 1]),
            list.push(t),
            head,
        ),
        forced(ledger, marks.update(t - 1, true), tints.update(t - 1, !tints[v - 1])),
{
    let marks2 = marks.update(t - 1, true);
    let tints2 = tints.update(t - 1, !tints[v - 1]);
    let grown = list.push(t);
    let q = choose|q: int| 0 <= q < list.len() && list[q] == v;
    assert(marked(marks, list[q]) && reaches_root(ledger, list[q]));
    assert(marked(marks, 1)) by {
        assert(marked(marks, list[0]));
    }
    assert forall|k: int, u: int| 0 <= k < head && #[trigger] refers(ledger, u, grown[k]) implies marked(
        marks2,
        u,
    ) && tints2[u - 1] != tints2[grown[k] - 1] by {
        assert(grown[k] == list[k]);
        assert(refers(ledger, u, list[k]));
        assert(marked(marks, list[k]));
    }
    assert forall|colors: Seq<bool>| #[trigger] is_coloring(ledger, colors) implies agrees(
        marks2,
        tints2,
        colors,
    ) by {
        assert(agrees(marks, tints, colors));
        assert forall|w: int| #[trigger] marked(marks2, w) implies ((colors[w - 1] == colors[0]) <==> (
        tints2[w - 1] == tints2[0])) by {
            if w == t {
                assert(marked(marks, v));
                assert(colors[t - 1] != colors[v - 1]);
            } else {
                assert(marked(marks, w));
            }
        }
    }
}

/// Two marked vertices of one colour with a reference between them leave the
/// ledger no colouring.
proof fn lemma_tint_clash(ledger: Ledger, marks: Seq<bool>, tints: Seq<bool>, t: int, v: int)
    requires
        forced(ledger, marks, tints),
        marked(marks, t),
        marked(marks, v),
        refers(ledger, t, v),
        reaches_root(ledger, v),
        tints[t - 1] == tints[v - 1],
    ensures
        !bipartite(ledger),
{
    if bipartite(ledger) {
        let colors = choose|colors: Seq<bool>| is_coloring(ledger, colors);
        assert(agrees(marks, tints, colors));
        assert(colors[t - 1] != colors[v - 1]);
    }
}

/// The fault of the transaction at position `i`, where one of its references
/// leads beyond the vertices of the ledger: the left one is looked at first.
pub open spec fn stray(ledger: Ledger, i: int) -> Option<Error> {
    if !is_vertex(ledger, ledger[i].left) {
        Some(
            Error::InvalidLeft(
                NonRootId::of((i + 2) as usize),
                Id::of(ledger[i].left as usize),
                (ledger.len() + 1) as usize,
            ),
        )
    } else if !is_vertex(ledger, ledger[i].right) {
        Some(
            Error::InvalidRight(
                NonRootId::of((i + 2) as usize),
                Id::of(ledger[i].right as usize),
                (ledger.len() + 1) as usize,
            ),
        )
    } else {
        None
    }
}

/// The first fault among the first `k` transactions, in their order.
pub open spec fn first_stray(ledger: Ledger, k: nat) -> Option<Error>
    decreases k,
{
    if k == 0 {
        None
    } else {
        match first_stray(ledger, (k - 1) as nat) {
            Some(e) => Some(e),
            None => stray(ledger, k - 1),
        }
    }
}

/// A ledger is complete where, and only where, no transaction has a fault.
pub proof fn lemma_first_stray(ledger: Ledger, k: nat)
    requires
        k <= ledger.len(),
    ensures
        first_stray(ledger, k) is None <==> forall|i: int|
            0 <= i < k ==> is_vertex(ledger, (#[trigger] ledger[i]).left) && is_vertex(
                ledger,
                ledger[i].right,
            ),
        first_stray(ledger, k) is Some ==> first_stray(ledger, ledger.len()) == first_stray(
            ledger,
            k,
        ),
    decreases ledger.len() - k,
{
    lemma_first_stray_until(ledger, k);
    if k < ledger.len() {
        lemma_first_stray(ledger, k + 1);
    }
}

/// No fault among the first `k` transactions means that their references
/// all lead to vertices.
proof fn lemma_first_stray_until(ledger: Ledger, k: nat)
    requires
        k <= ledger.len(),
    ensures
        first_stray(ledger, k) is None <==> forall|i: int|
            0 <= i < k ==> is_vertex(ledger, (#[trigger] ledger[i]).left) && is_vertex(
                ledger,
                ledger[i].right,
            ),
    decreases k,
{
    if k > 0 {
        lemma_first_stray_until(ledger, (k - 1) as nat);
        if first_stray(ledger, k) is None {
            assert(stray(ledger, k - 1) is None);
        } else if first_stray(ledger, (k - 1) as nat) is None {
            assert(!(is_vertex(ledger, ledger[k - 1].left) && is_vertex(ledger, ledger[k - 1].right)));
        }
    }
}

impl Graph {
    /// Checks that every reference leads to a vertex of the ledger, and if
    /// so, says whether the ledger can be coloured with two colours. Where a
    /// reference leads beyond the ledger, the first such reference is the
    /// error, with its transaction and the last vertex of the ledger.
    pub fn validate(&self) -> (result: Result<bool, Error>)
        requires
            self.wf(),
        ensures
            match result {
                Ok(verdict) => complete(self@) && verdict == bipartite(self@),
                Err(e) => !complete(self@) && first_stray(self@, self@.len()) == Some(e),
            },
    {
        let n = self.len();
        let transactions = self.transactions();
        proof {
            self.lemma_wf();
        }
        let mut i: usize = 0;
        while i < n
            invariant
                numbered(self@),
                n == self@.len(),
                2 * n <= usize::MAX,
                transactions@.map_values(|t: Transaction| t@) == self@,
                i <= n,
                first_stray(self@, i as nat) is None,
            decreases n - i,
        {
            let t = &transactions[i];
            assert(t@ == self@[i as int]) by {
                assert(transactions@.map_values(|t: Transaction| t@)[i as int] == transactions@[i as int]@);
            }
            proof {
                lemma_first_stray(self@, (i + 1) as nat);
                lemma_first_stray(self@, n as nat);
            }
            let id = t.id();
            proof {
                broadcast use NonRootId::lemma_of_view;

                id.lemma_view_injective(NonRootId::of((i + 2) as usize));
            }
            let left = t.left();
            if left.value() - 1 > n {
                return Err(Error::InvalidLeft(id, left, n + 1));
            }
            let right = t.right();
            if right.value() - 1 > n {
                return Err(Error::InvalidRight(id, right, n + 1));
            }
            i += 1;
        }
        proof {
            lemma_first_stray(self@, n as nat);
        }
        Ok(self.is_bipartite())
    }

    /// Whether the ledger is connected and acyclic. Walks from the root to
    /// the transactions that refer to it, and on from a transaction once all
    /// of its references have been followed: the walk finds every
    /// transaction where, and only where, the references rank them all.
    pub fn is_ranked(&self) -> (ranked: bool)
        requires
            self.wf(),
        ensures
            ranked == (connected(self@) && acyclic(self@)),
            ranked == (connected(self@) && !has_cycle(self@)),
    {
        let n = self.len();
        proof {
            self.lemma_wf();
        }
        let mut pending: Vec<u8> = Vec::new();
        let transactions = self.transactions();
        while pending.len() < n
            invariant
                numbered(self@),
                n == self@.len(),
                2 * n <= usize::MAX,
                transactions@.map_values(|t: Transaction| t@) == self@,
                pending@.len() <= n,
                forall|i: int|
                    0 <= i < pending@.len() ==> #[trigger] pending@[i] == vertex_refs(
                        self@,
                        self@[i],
                    ),
            decreases n - pending@.len(),
        {
            let i = pending.len();
            let t = &transactions[i];
            assert(t@ == self@[i as int]) by {
                assert(transactions@.map_values(|t: Transaction| t@)[i as int] == transactions@[i as int]@);
            }
            assert(!Seq::<int>::empty().contains(t@.left));
            assert(!Seq::<int>::empty().contains(t@.right));
            let mut open: u8 = 0;
            if t.left().value() - 1 <= n {
                open += 1;
            }
            if t.right().value() - 1 <= n {
                open += 1;
            }
            pending.push(open);
        }
        let mut order: Vec<Id> = Vec::new();
        order.push(Id::Root);
        let ghost mut list: Seq<int> = seq![1int];
        let mut head: usize = 0;
        proof {
            assert(reaches_root_in(self@, 1, 0));
            assert(list.take(0) =~= Seq::empty());
            assert forall|t: int| is_transaction(self@, t) implies !list.contains(t) by {
                if list.contains(t) {
                    let q = choose|q: int| 0 <= q < list.len() && list[q] == t;
                }
            }
            lemma_distinct_vertices(self@, list);
        }
        while head < order.len()
            invariant
                self.wf(),
                numbered(self@),
                n == self@.len(),
                lists(list, order@),
                ranking_walk(self@, pending@, list),
                counts_open(self@, pending@, list, head as int, Seq::empty()),
                head <= order@.len() <= n + 1,
            decreases n + 1 - head,
        {
            let v = order[head];
            let at_v = v.value();
            let ghost sources_v = sources_of(self@, v@);
            assert(v@ == list[head as int]);
            proof {
                lemma_sources_of(self@, v@);
                lemma_count_of(self@, v@);
                assert(sources_v.take(0) =~= Seq::empty());
                assert forall|u: int| !Seq::<int>::empty().contains(u) by {}
            }
            if let Some(refs) = self.in_refs(v) {
                let sources = refs.sources();
                let mut j: usize = 0;
                while j < sources.len()
                    invariant
                        self.wf(),
                        numbered(self@),
                        n == self@.len(),
                        lists(list, order@),
                        ranking_walk(self@, pending@, list),
                        counts_open(self@, pending@, list, head as int, sources_v.take(j as int)),
                        head < order@.len() <= n + 1,
                        v@ == list[head as int],
                        at_v == v@,
                        sources_v == sources_of(self@, v@),
                        sources@.map_values(|id: NonRootId| id@) == sources_v,
                        forall|k: int|
                            0 <= k < sources_v.len() ==> refers(self@, #[trigger] sources_v[k], v@),
                        forall|i: int, k: int|
                            0 <= i < k < sources_v.len() ==> sources_v[i] < sources_v[k],
                        j <= sources@.len(),
                    decreases sources@.len() - j,
                {
                    let t = sources[j];
                    let ghost tv = sources_v[j as int];
                    assert(tv == t@) by {
                        assert(sources@.map_values(|id: NonRootId| id@)[j as int] == sources@[j as int]@);
                    }
                    assert(refers(self@, tv, v@));
                    let ghost handled = sources_v.take(j as int);
                    let ghost handled2 = sources_v.take(j + 1);
                    let ghost before = pending@;
                    let ghost list_before = list;
                    proof {
                        assert(!handled.contains(tv)) by {
                            if handled.contains(tv) {
                                let q = choose|q: int| 0 <= q < handled.len() && handled[q] == tv;
                                assert(sources_v[q] < sources_v[j as int]);
                            }
                        }
                        lemma_open_refs_step(self@, self@[tv - 2], list, head as int);
                    }
                    let entry = self.index(t);
                    let mut closes: u8 = 0;
                    if entry.left().value() == at_v {
                        closes += 1;
                    }
                    if entry.right().value() == at_v {
                        closes += 1;
                    }
                    assert(closes == times_referred(self@[tv - 2], v@));
                    let at = t.value() - 2;
                    assert(before[at as int] == open_refs(self@, self@[tv - 2], list.take(head as int)));
                    let open = pending[at] - closes;
                    pending.set(at, open);
                    if open == 0 {
                        proof {
                            lemma_ranking_walk_grows(self@, before, list, head as int, tv);
                            list = list.push(tv);
                            assert(list.take(head as int) =~= list_before.take(head as int));
                            assert(list.take(head + 1) =~= list_before.take(head + 1));
                        }
                        order.push(Id::Transaction(t));
                    } else {
                        proof {
                            lemma_ranking_walk_waits(self@, before, list, tv, open);
                        }
                    }
                    proof {
                        assert forall|u: int| handled2.contains(u) <==> handled.contains(u) || u
                            == tv by {
                            if handled.contains(u) {
                                let q = choose|q: int| 0 <= q < handled.len() && handled[q] == u;
                                assert(handled2[q] == u);
                            }
                            if u == tv {
                                assert(handled2[j as int] == tv);
                            }
                            if handled2.contains(u) {
                                let q = choose|q: int| 0 <= q < handled2.len() && handled2[q] == u;
                                if q < j {
                                    assert(handled[q] == u);
                                }
                            }
                        }
                        assert forall|u: int| is_transaction(self@, u) implies #[trigger] pending@[u
                            - 2] == open_refs(
                            self@,
                            self@[u - 2],
                            if handled2.contains(u) {
                                list.take(head + 1)
                            } else {
                                list.take(head as int)
                            },
                        ) by {
                            if u != tv {
                                assert(pending@[u - 2] == before[u - 2]);
                            }
                        }
                    }
                    j += 1;
                }
                assert(sources_v.take(j as int) =~= sources_v);
            } else {
                assert(sources_v =~= Seq::empty());
            }
            proof {
                assert(counts_open(self@, pending@, list, head as int, sources_v));
                assert forall|u: int| is_transaction(self@, u) implies #[trigger] pending@[u - 2]
                    == open_refs(self@, self@[u - 2], list.take(head + 1)) by {
                    if !sources_v.contains(u) {
                        assert(!refers(self@, u, v@));
                        lemma_open_refs_step(self@, self@[u - 2], list, head as int);
                    }
                }
            }
            head += 1;
        }
        proof {
            if acyclic(self@) && has_cycle(self@) {
                lemma_cycle_is_not_acyclic(self@);
            }
            if order@.len() != n + 1 && connected(self@) {
                lemma_unfinished_has_cycle(self@, pending@, list);
            }
            if order@.len() == n + 1 {
                lemma_full_walk_ranks(self@, pending@, list);
            } else if connected(self@) && acyclic(self@) {
                let rank = choose|rank: Seq<nat>| is_ranking(self@, rank);
                assert forall|v: int| is_vertex(self@, v) implies #[trigger] list.contains(v) by {
                    if v == 1 {
                        assert(list[0] == 1);
                    } else {
                        lemma_finished_walk_is_full(self@, pending@, list, rank, v);
                    }
                }
                lemma_distinct_vertices(self@, list);
            }
        }
        order.len() == n + 1
    }

    /// Whether every transaction leads to the root, and if so, whether the
    /// references form no cycle: `None` for a ledger in which some
    /// transaction does not lead to the root, `Some(false)` for one in which
    /// all do and some references form a cycle, `Some(true)` for one that is
    /// connected and acyclic.
    pub fn is_connected_acyclic(&self) -> (verdict: Option<bool>)
        requires
            self.wf(),
        ensures
            verdict is None <==> !connected(self@),
            verdict == Some(true) <==> connected(self@) && !has_cycle(self@),
            verdict == Some(false) <==> connected(self@) && has_cycle(self@),
            verdict == Some(true) <==> connected(self@) && acyclic(self@),
    {
        if self.is_ranked() {
            return Some(true);
        }
        let marks = self.reached();
        let mut i: usize = 0;
        while i < marks.len()
            invariant
                marks@.len() == self@.len() + 1,
                forall|v: int|
                    is_vertex(self@, v) ==> (marked(marks@, v) <==> reaches_root(self@, v)),
                i <= marks@.len(),
                forall|v: int| 1 <= v <= i ==> reaches_root(self@, v),
            decreases marks@.len() - i,
        {
            if !marks[i] {
                assert(!marked(marks@, i + 1));
                assert(is_transaction(self@, i + 1)) by {
                    assert(reaches_root_in(self@, 1, 0));
                }
                return None;
            }
            assert(marked(marks@, i + 1));
            i += 1;
        }
        Some(false)
    }

    /// Whether the references of a connected ledger form no cycle.
    pub fn is_acyclic(&self) -> (verdict: bool)
        requires
            self.wf(),
            connected(self@),
        ensures
            verdict == acyclic(self@),
            verdict == !has_cycle(self@),
    {
        self.is_ranked()
    }

    /// Whether the part of the ledger that hangs off the root can be
    /// coloured with two colours. Walks from the root and gives each
    /// transaction the colour that the vertex it was reached from has not;
    /// the answer is no as soon as a reference joins two vertices of one
    /// colour.
    pub fn is_bipartite(&self) -> (verdict: bool)
        requires
            self.wf(),
        ensures
            verdict == bipartite(self@),
    {
        let n = self.len();
        proof {
            self.lemma_wf();
        }
        let mut marks: Vec<bool> = Vec::new();
        let mut tints: Vec<bool> = Vec::new();
        marks.push(true);
        tints.push(false);
        while marks.len() <= n
            invariant
                2 * n <= usize::MAX,
                1 <= marks@.len() <= n + 1,
                tints@.len() == marks@.len(),
                marks@[0],
                forall|i: int| 1 <= i < marks@.len() ==> !marks@[i],
            decreases n + 1 - marks@.len(),
        {
            marks.push(false);
            tints.push(false);
        }
        let mut order: Vec<Id> = Vec::new();
        order.push(Id::Root);
        let ghost mut list: Seq<int> = seq![1int];
        let mut head: usize = 0;
        proof {
            assert(reaches_root_in(self@, 1, 0));
            assert forall|v: int| #[trigger] marked(marks@, v) implies list.contains(v) by {
                assert(list[0] == 1);
            }
            lemma_distinct_vertices(self@, list);
        }
        while head < order.len()
            invariant
                self.wf(),
                numbered(self@),
                n == self@.len(),
                lists(list, order@),
                walk(self@, marks@, list),
                tints@.len() == marks@.len(),
                sources_tinted(self@, marks@, tints@, list, head as int),
                forced(self@, marks@, tints@),
                head <= order@.len() <= n + 1,
            decreases n + 1 - head,
        {
            let v = order[head];
            assert(v@ == list[head as int]);
            assert(marked(marks@, list[head as int]) && reaches_root(self@, list[head as int]));
            let tint = !tints[v.value() - 1];
            proof {
                lemma_sources_of(self@, v@);
                lemma_count_of(self@, v@);
            }
            if let Some(refs) = self.in_refs(v) {
                let sources = refs.sources();
                let mut j: usize = 0;
                while j < sources.len()
                    invariant
                        self.wf(),
                        numbered(self@),
                        n == self@.len(),
                        lists(list, order@),
                        walk(self@, marks@, list),
                        tints@.len() == marks@.len(),
                        sources_tinted(self@, marks@, tints@, list, head as int),
                        forced(self@, marks@, tints@),
                        head < order@.len() <= n + 1,
                        v@ == list[head as int],
                        marked(marks@, v@),
                        reaches_root(self@, v@),
                        tint == !tints@[v@ - 1],
                        sources@.map_values(|id: NonRootId| id@) == sources_of(self@, v@),
                        forall|k: int|
                            0 <= k < sources_of(self@, v@).len() ==> refers(
                                self@,
                                #[trigger] sources_of(self@, v@)[k],
                                v@,
                            ),
                        j <= sources@.len(),
                        forall|k: int|
                            0 <= k < j ==> marked(marks@, #[trigger] sources_of(self@, v@)[k])
                                && tints@[sources_of(self@, v@)[k] - 1] == tint,
                    decreases sources@.len() - j,
                {
                    let t = sources[j];
                    let ghost tv = sources_of(self@, v@)[j as int];
                    assert(tv == t@) by {
                        assert(sources@.map_values(|id: NonRootId| id@)[j as int] == sources@[j as int]@);
                    }
                    assert(refers(self@, tv, v@));
                    let at = t.value() - 1;
                    if !marks[at] {
                        proof {
                            assert(list.contains(v@));
                            lemma_walk_grows(self@, marks@, list, tv, v@);
                            lemma_tint_grows(self@, marks@, tints@, list, head as int, tv, v@);
                            list = list.push(tv);
                        }
                        marks.set(at, true);
                        tints.set(at, tint);
                        order.push(Id::Transaction(t));
                    } else if tints[at] != tint {
                        proof {
                            lemma_tint_clash(self@, marks@, tints@, tv, v@);
                        }
                        return false;
                    }
                    j += 1;
                }
            }
            proof {
                assert forall|t: int| #[trigger] refers(self@, t, v@) implies marked(marks@, t)
                    && tints@[t - 1] != tints@[v@ - 1] by {
                    assert(sources_of(self@, v@).contains(t));
                    let k = choose|k: int|
                        0 <= k < sources_of(self@, v@).len() && sources_of(self@, v@)[k] == t;
                    assert(marked(marks@, sources_of(self@, v@)[k]));
                }
            }
            head += 1;
        }
        proof {
            assert forall|t: int, w: int| marked(marks@, w) && #[trigger] refers(self@, t, w) implies marked(
                marks@,
                t,
            ) by {
                assert(list.contains(w));
                let k = choose|k: int| 0 <= k < list.len() && list[k] == w;
                assert(refers(self@, t, list[k]));
            }
            assert(marked(marks@, list[0]));
            assert forall|t: int, v: int| #[trigger]
                refers(self@, t, v) && reaches_root(self@, v) implies tints@[t - 1] != tints@[v
                - 1] by {
                let hops = choose|hops: nat| reaches_root_in(self@, v, hops);
                lemma_marks_cover(self@, marks@, v, hops);
                assert(list.contains(v));
                let k = choose|k: int| 0 <= k < list.len() && list[k] == v;
                assert(refers(self@, t, list[k]));
            }
            assert(is_coloring(self@, tints@));
        }
        true
    }

    /// Marks the vertices that lead to the root: walks from the root to the
    /// transactions that refer to it, and on from each of them.
    pub fn reached(&self) -> (marks: Vec<bool>)
        requires
            self.wf(),
        ensures
            marks@.len() == self@.len() + 1,
            forall|v: int| is_vertex(self@, v) ==> (marked(marks@, v) <==> reaches_root(self@, v)),
    {
        let n = self.len();
        proof {
            self.lemma_wf();
        }
        let mut marks: Vec<bool> = Vec::new();
        marks.push(true);
        while marks.len() <= n
            invariant
                2 * n <= usize::MAX,
                1 <= marks@.len() <= n + 1,
                marks@[0],
                forall|i: int| 1 <= i < marks@.len() ==> !marks@[i],
            decreases n + 1 - marks@.len(),
        {
            marks.push(false);
        }
        let mut order: Vec<Id> = Vec::new();
        order.push(Id::Root);
        let ghost mut list: Seq<int> = seq![1int];
        let mut head: usize = 0;
        proof {
            assert(reaches_root_in(self@, 1, 0));
            assert forall|v: int| #[trigger] marked(marks@, v) implies list.contains(v) by {
                assert(list[0] == 1);
            }
            lemma_distinct_vertices(self@, list);
        }
        while head < order.len()
            invariant
                self.wf(),
                numbered(self@),
                n == self@.len(),
                lists(list, order@),
                walk(self@, marks@, list),
                sources_marked(self@, marks@, list, head as int),
                head <= order@.len() <= n + 1,
            decreases n + 1 - head,
        {
            let v = order[head];
            assert(v@ == list[head as int]);
            proof {
                lemma_sources_of(self@, v@);
                lemma_count_of(self@, v@);
            }
            if let Some(refs) = self.in_refs(v) {
                let sources = refs.sources();
                let mut j: usize = 0;
                while j < sources.len()
                    invariant
                        self.wf(),
                        numbered(self@),
                        n == self@.len(),
                        lists(list, order@),
                        walk(self@, marks@, list),
                        sources_marked(self@, marks@, list, head as int),
                        head < order@.len() <= n + 1,
                        v@ == list[head as int],
                        sources@.map_values(|id: NonRootId| id@) == sources_of(self@, v@),
                        forall|k: int|
                            0 <= k < sources_of(self@, v@).len() ==> refers(
                                self@,
                                #[trigger] sources_of(self@, v@)[k],
                                v@,
                            ),
                        j <= sources@.len(),
                        forall|k: int|
                            0 <= k < j ==> marked(marks@, #[trigger] sources_of(self@, v@)[k]),
                    decreases sources@.len() - j,
                {
                    let t = sources[j];
                    let ghost tv = sources_of(self@, v@)[j as int];
                    assert(tv == t@) by {
                        assert(sources@.map_values(|id: NonRootId| id@)[j as int] == sources@[j as int]@);
                    }
                    assert(refers(self@, tv, v@));
                    let at = t.value() - 1;
                    if !marks[at] {
                        proof {
                            lemma_walk_grows(self@, marks@, list, tv, v@);
                            list = list.push(tv);
                        }
                        marks.set(at, true);
                        order.push(Id::Transaction(t));
                    }
                    j += 1;
                }
            }
            proof {
                assert forall|t: int| #[trigger] refers(self@, t, v@) implies marked(marks@, t) by {
                    assert(sources_of(self@, v@).contains(t));
                    let k = choose|k: int|
                        0 <= k < sources_of(self@, v@).len() && sources_of(self@, v@)[k] == t;
                    assert(marked(marks@, sources_of(self@, v@)[k]));
                }
            }
            head += 1;
        }
        proof {
            assert forall|t: int, w: int| marked(marks@, w) && #[trigger] refers(self@, t, w) implies marked(
                marks@,
                t,
            ) by {
                assert(list.contains(w));
                let k = choose|k: int| 0 <= k < list.len() && list[k] == w;
                assert(refers(self@, t, list[k]));
            }
            assert forall|v: int| is_vertex(self@, v) implies (marked(marks@, v) <==> reaches_root(
                self@,
                v,
            )) by {
                if marked(marks@, v) {
                    assert(list.contains(v));
                    let k = choose|k: int| 0 <= k < list.len() && list[k] == v;
                    assert(reaches_root(self@, list[k]));
                }
                if reaches_root(self@, v) {
                    let hops = choose|hops: nat| reaches_root_in(self@, v, hops);
                    lemma_marks_cover(self@, marks@, v, hops);
                }
            }
        }
        marks
    }
}

} // verus!
