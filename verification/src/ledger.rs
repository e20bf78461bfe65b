//! A ledger as mathematics: the sequence of what its transactions say, and
//! what that sequence tells about each vertex.
//!
//! The vertices of a ledger of `n` transactions are the integers from 1 to
//! `n + 1`: 1 is the root, and `i + 2` is the transaction at position `i`.

use crate::transaction::TransactionView;
use vstd::prelude::*;
use vstd::set_lib::lemma_int_range;
use vstd::set_lib::lemma_len_subset;
use vstd::set_lib::lemma_subset_equality;
use vstd::set_lib::set_int_range;

verus! {

/// A ledger: what its transactions say, in the order in which they were added.
pub type Ledger = Seq<TransactionView>;

/// Whether the transactions are numbered from 2 in the order in which they
/// stand, and every reference is an integer that an identifier can hold.
pub open spec fn numbered(ledger: Ledger) -> bool {
    forall|i: int|
        0 <= i < ledger.len() ==> {
            &&& (#[trigger] ledger[i]).id == i + 2
            &&& 1 <= ledger[i].left <= usize::MAX
            &&& 1 <= ledger[i].right <= usize::MAX
        }
}

/// Whether `v` is a vertex of the ledger: the root or one of its transactions.
pub open spec fn is_vertex(ledger: Ledger, v: int) -> bool {
    1 <= v <= ledger.len() + 1
}

/// Whether `v` is a transaction of the ledger.
pub open spec fn is_transaction(ledger: Ledger, v: int) -> bool {
    2 <= v <= ledger.len() + 1
}

/// Whether every reference of the ledger leads to one of its vertices.
pub open spec fn complete(ledger: Ledger) -> bool {
    forall|i: int|
        0 <= i < ledger.len() ==> {
            &&& is_vertex(ledger, (#[trigger] ledger[i]).left)
            &&& is_vertex(ledger, ledger[i].right)
        }
}

/// How many of the two references of `t` lead to `v`.
pub open spec fn times_referred(t: TransactionView, v: int) -> nat {
    (if t.left == v {
        1nat
    } else {
        0nat
    }) + (if t.right == v {
        1nat
    } else {
        0nat
    })
}

/// Whether the transaction `t` of the ledger refers to `v`.
pub open spec fn refers(ledger: Ledger, t: int, v: int) -> bool {
    is_transaction(ledger, t) && times_referred(ledger[t - 2], v) > 0
}

/// How many references of the ledger lead to `v`, a transaction that refers
/// to `v` twice counting twice.
pub open spec fn count_of(ledger: Ledger, v: int) -> nat
    decreases ledger.len(),
{
    if ledger.len() == 0 {
        0
    } else {
        count_of(ledger.drop_last(), v) + times_referred(ledger.last(), v)
    }
}

/// The transactions that refer to `v`, each once, in the order in which they
/// were added.
pub open spec fn sources_of(ledger: Ledger, v: int) -> Seq<int>
    decreases ledger.len(),
{
    if ledger.len() == 0 {
        Seq::empty()
    } else if times_referred(ledger.last(), v) > 0 {
        sources_of(ledger.drop_last(), v).push(ledger.last().id)
    } else {
        sources_of(ledger.drop_last(), v)
    }
}

/// At most two references per transaction lead to any one vertex, and a
/// vertex that is referred to has a source.
pub proof fn lemma_count_of(ledger: Ledger, v: int)
    ensures
        count_of(ledger, v) <= 2 * ledger.len(),
        count_of(ledger, v) > 0 <==> sources_of(ledger, v).len() > 0,
        sources_of(ledger, v).len() <= ledger.len(),
    decreases ledger.len(),
{
    if ledger.len() > 0 {
        lemma_count_of(ledger.drop_last(), v);
    }
}

/// The sources of `v` are the transactions that refer to `v`, in ascending
/// order.
pub proof fn lemma_sources_of(ledger: Ledger, v: int)
    requires
        numbered(ledger),
    ensures
        forall|k: int|
            0 <= k < sources_of(ledger, v).len() ==> refers(
                ledger,
                #[trigger] sources_of(ledger, v)[k],
                v,
            ),
        forall|t: int| refers(ledger, t, v) ==> sources_of(ledger, v).contains(t),
        forall|j: int, k: int|
            0 <= j < k < sources_of(ledger, v).len() ==> sources_of(ledger, v)[j] < sources_of(
                ledger,
                v,
            )[k],
    decreases ledger.len(),
{
    if ledger.len() > 0 {
        let rest = ledger.drop_last();
        let last = ledger.last();
        lemma_sources_of(rest, v);
        let before = sources_of(rest, v);
        let now = sources_of(ledger, v);
        assert forall|k: int| 0 <= k < now.len() implies refers(ledger, #[trigger] now[k], v) by {
            if k < before.len() {
                assert(refers(rest, before[k], v));
                assert(rest[before[k] - 2] == ledger[before[k] - 2]);
            }
        }
        assert forall|t: int| refers(ledger, t, v) implies now.contains(t) by {
            if t == last.id {
                assert(now[now.len() - 1] == t);
            } else {
                assert(rest[t - 2] == ledger[t - 2]);
                assert(refers(rest, t, v));
                let k = choose|k: int| 0 <= k < before.len() && before[k] == t;
                assert(now[k] == t);
            }
        }
        assert forall|j: int, k: int| 0 <= j < k < now.len() implies now[j] < now[k] by {
            if k == before.len() {
                assert(refers(rest, before[j], v));
            }
        }
    }
}

/// Whether `v` leads to the root by exactly `k` references, each the left or
/// the right one of the transaction reached before.
pub open spec fn reaches_root_in(ledger: Ledger, v: int, k: nat) -> bool
    decreases k,
{
    if k == 0 {
        v == 1
    } else {
        is_transaction(ledger, v) && (reaches_root_in(ledger, ledger[v - 2].left, (k - 1) as nat)
            || reaches_root_in(ledger, ledger[v - 2].right, (k - 1) as nat))
    }
}

/// Whether `v` leads to the root by some number of references.
pub open spec fn reaches_root(ledger: Ledger, v: int) -> bool {
    exists|k: nat| reaches_root_in(ledger, v, k)
}

/// Whether every transaction of the ledger leads to the root.
pub open spec fn connected(ledger: Ledger) -> bool {
    forall|v: int| is_transaction(ledger, v) ==> reaches_root(ledger, v)
}

/// Whether `rank` gives every transaction a number below the number of
/// transactions, such that every reference from a transaction to a
/// transaction leads to a smaller number.
pub open spec fn is_ranking(ledger: Ledger, rank: Seq<nat>) -> bool {
    &&& rank.len() == ledger.len()
    &&& forall|i: int| 0 <= i < rank.len() ==> #[trigger] rank[i] < ledger.len()
    &&& forall|t: int, v: int|
        is_transaction(ledger, v) && #[trigger] refers(ledger, t, v) ==> rank[v - 2] < rank[t - 2]
}

/// Whether the references of the ledger form no cycle: its transactions can
/// be ranked so that every reference leads downwards.
pub open spec fn acyclic(ledger: Ledger) -> bool {
    exists|rank: Seq<nat>| is_ranking(ledger, rank)
}

/// Whether `colors`, which holds one of two colours for each vertex, the root
/// first, gives different colours to the two ends of every reference to a
/// vertex that leads to the root.
pub open spec fn is_coloring(ledger: Ledger, colors: Seq<bool>) -> bool {
    &&& colors.len() == ledger.len() + 1
    &&& forall|t: int, v: int|
        #[trigger] refers(ledger, t, v) && reaches_root(ledger, v) ==> colors[t - 1] != colors[v
            - 1]
}

/// Whether the part of the ledger that hangs off the root can be coloured
/// with two colours.
pub open spec fn bipartite(ledger: Ledger) -> bool {
    exists|colors: Seq<bool>| is_coloring(ledger, colors)
}

/// Whether `colors` gives different colours to the two ends of every
/// reference that leads to a vertex of the ledger.
pub open spec fn is_proper_coloring(ledger: Ledger, colors: Seq<bool>) -> bool {
    &&& colors.len() == ledger.len() + 1
    &&& forall|t: int, v: int|
        #[trigger] refers(ledger, t, v) && is_vertex(ledger, v) ==> colors[t - 1] != colors[v - 1]
}

/// In a connected ledger, the part that hangs off the root is the whole
/// ledger: it is bipartite where, and only where, its vertices can be
/// coloured so that every reference joins two colours.
pub proof fn lemma_bipartite_connected(ledger: Ledger)
    requires
        connected(ledger),
    ensures
        bipartite(ledger) <==> exists|colors: Seq<bool>| is_proper_coloring(ledger, colors),
{
    assert forall|v: int| is_vertex(ledger, v) <==> reaches_root(ledger, v) by {
        if is_vertex(ledger, v) {
            if v == 1 {
                assert(reaches_root_in(ledger, 1, 0));
            } else {
                assert(is_transaction(ledger, v));
            }
        }
        if reaches_root(ledger, v) {
            let k = choose|k: nat| reaches_root_in(ledger, v, k);
            lemma_reaching_is_vertex(ledger, v, k);
        }
    }
    if bipartite(ledger) {
        let colors = choose|colors: Seq<bool>| is_coloring(ledger, colors);
        assert(is_proper_coloring(ledger, colors));
    }
    if exists|colors: Seq<bool>| is_proper_coloring(ledger, colors) {
        let colors = choose|colors: Seq<bool>| is_proper_coloring(ledger, colors);
        assert(is_coloring(ledger, colors));
    }
}

/// Only vertices lead to the root.
pub proof fn lemma_reaching_is_vertex(ledger: Ledger, v: int, k: nat)
    requires
        reaches_root_in(ledger, v, k),
    ensures
        is_vertex(ledger, v),
        k == 0 <==> v == 1,
{
}

/// A transaction that refers to a vertex that leads to the root leads to the
/// root, by one reference more.
pub proof fn lemma_reaches_through(ledger: Ledger, t: int, v: int, k: nat)
    requires
        refers(ledger, t, v),
        reaches_root_in(ledger, v, k),
    ensures
        reaches_root_in(ledger, t, k + 1),
        reaches_root(ledger, t),
{
    assert(reaches_root_in(ledger, t, (k + 1) as nat));
}

/// Whether `k` is the smallest number of references by which `v` leads to
/// the root.
pub open spec fn is_depth(ledger: Ledger, v: int, k: nat) -> bool {
    reaches_root_in(ledger, v, k) && forall|j: nat| j < k ==> !reaches_root_in(ledger, v, j)
}

/// The depth of a vertex that leads to the root: the smallest number of
/// references by which it does.
pub open spec fn depth(ledger: Ledger, v: int) -> nat {
    choose|k: nat| is_depth(ledger, v, k)
}

/// The rank that `acyclic` promises.
pub open spec fn ranking(ledger: Ledger) -> Seq<nat> {
    choose|rank: Seq<nat>| is_ranking(ledger, rank)
}

/// A vertex that leads to the root by `k` references has a depth, which is
/// at most `k`.
pub proof fn lemma_depth_at_most(ledger: Ledger, v: int, k: nat)
    requires
        reaches_root_in(ledger, v, k),
    ensures
        is_depth(ledger, v, depth(ledger, v)),
        depth(ledger, v) <= k,
    decreases k,
{
    if exists|j: nat| j < k && reaches_root_in(ledger, v, j) {
        let j = choose|j: nat| j < k && reaches_root_in(ledger, v, j);
        lemma_depth_at_most(ledger, v, j);
    } else {
        assert(is_depth(ledger, v, k));
        let d = depth(ledger, v);
        assert(is_depth(ledger, v, d));
        if d > k {
            assert(!reaches_root_in(ledger, v, k));
        }
    }
}

/// A vertex that leads to the root has one depth only.
pub proof fn lemma_depth_is(ledger: Ledger, v: int, k: nat)
    requires
        is_depth(ledger, v, k),
    ensures
        depth(ledger, v) == k,
{
    lemma_depth_at_most(ledger, v, k);
    let d = depth(ledger, v);
    if d < k {
        assert(!reaches_root_in(ledger, v, d));
    }
}

/// The smaller of two numbers.
pub open spec fn smaller(a: nat, b: nat) -> nat {
    if a <= b {
        a
    } else {
        b
    }
}

/// The root has depth 0, and nothing else has.
pub proof fn lemma_depth_of_root(ledger: Ledger)
    ensures
        depth(ledger, 1) == 0,
        forall|v: int| reaches_root(ledger, v) && depth(ledger, v) == 0 ==> v == 1,
{
    assert(is_depth(ledger, 1, 0));
    lemma_depth_is(ledger, 1, 0);
    assert forall|v: int| reaches_root(ledger, v) && depth(ledger, v) == 0 implies v == 1 by {
        let k = choose|k: nat| reaches_root_in(ledger, v, k);
        lemma_depth_at_most(ledger, v, k);
    }
}

/// A transaction whose two references lead to the root is one reference
/// deeper than the shallower of the two.
pub proof fn lemma_depth_of_transaction(ledger: Ledger, t: int)
    requires
        is_transaction(ledger, t),
        reaches_root(ledger, ledger[t - 2].left),
        reaches_root(ledger, ledger[t - 2].right),
    ensures
        reaches_root(ledger, t),
        depth(ledger, t) == 1 + smaller(
            depth(ledger, ledger[t - 2].left),
            depth(ledger, ledger[t - 2].right),
        ),
{
    let left = ledger[t - 2].left;
    let right = ledger[t - 2].right;
    let kl = choose|k: nat| reaches_root_in(ledger, left, k);
    let kr = choose|k: nat| reaches_root_in(ledger, right, k);
    lemma_depth_at_most(ledger, left, kl);
    lemma_depth_at_most(ledger, right, kr);
    let dl = depth(ledger, left);
    let dr = depth(ledger, right);
    let d = 1 + smaller(dl, dr);
    assert(reaches_root_in(ledger, t, d as nat));
    assert forall|j: nat| j < d implies !reaches_root_in(ledger, t, j) by {
        if j > 0 && reaches_root_in(ledger, t, j) {
            let i = (j - 1) as nat;
            if reaches_root_in(ledger, left, i) {
                assert(i < dl);
            } else {
                assert(reaches_root_in(ledger, right, i));
                assert(i < dr);
            }
        }
    }
    lemma_depth_is(ledger, t, d as nat);
}

/// In a complete ledger that is ranked, every vertex leads to the root, and
/// a transaction's depth is at most one more than its rank.
pub proof fn lemma_ranked_depth(ledger: Ledger, rank: Seq<nat>, v: int)
    requires
        numbered(ledger),
        complete(ledger),
        is_ranking(ledger, rank),
        is_vertex(ledger, v),
    ensures
        reaches_root(ledger, v),
        v >= 2 ==> 1 <= depth(ledger, v) <= rank[v - 2] + 1,
        v >= 2 ==> depth(ledger, v) <= ledger.len(),
    decreases
            if v >= 2 {
                rank[v - 2] + 1
            } else {
                0
            },
{
    if v == 1 {
        assert(reaches_root_in(ledger, 1, 0));
    } else {
        let left = ledger[v - 2].left;
        let right = ledger[v - 2].right;
        assert(is_vertex(ledger, left) && is_vertex(ledger, right));
        assert(refers(ledger, v, left) && refers(ledger, v, right));
        lemma_ranked_depth(ledger, rank, left);
        lemma_ranked_depth(ledger, rank, right);
        lemma_depth_of_transaction(ledger, v);
        lemma_depth_of_root(ledger);
        assert(rank[v - 2] < ledger.len());
    }
}

/// In a complete ledger without a cycle, every transaction has a depth of at
/// least 1, which is one more than the smaller of the depths of the two
/// vertices that it refers to; the root alone has depth 0.
pub proof fn lemma_depth_law(ledger: Ledger, t: int)
    requires
        numbered(ledger),
        complete(ledger),
        acyclic(ledger),
        is_transaction(ledger, t),
    ensures
        depth(ledger, 1) == 0,
        depth(ledger, t) >= 1,
        depth(ledger, t) == 1 + smaller(
            depth(ledger, ledger[t - 2].left),
            depth(ledger, ledger[t - 2].right),
        ),
{
    let rank = ranking(ledger);
    lemma_depth_of_root(ledger);
    lemma_ranked_depth(ledger, rank, t);
    lemma_ranked_depth(ledger, rank, ledger[t - 2].left);
    lemma_ranked_depth(ledger, rank, ledger[t - 2].right);
    lemma_depth_of_transaction(ledger, t);
}

/// Whether `k` references lead from the vertex `from` to the vertex `to`,
/// each the left or the right one of the transaction reached before.
pub open spec fn leads_to(ledger: Ledger, from: int, to: int, k: nat) -> bool
    decreases k,
{
    if k == 0 {
        from == to
    } else {
        is_transaction(ledger, from) && (leads_to(ledger, ledger[from - 2].left, to, (k - 1) as nat)
            || leads_to(ledger, ledger[from - 2].right, to, (k - 1) as nat))
    }
}

/// Whether some transaction leads back to itself by one reference or more.
pub open spec fn has_cycle(ledger: Ledger) -> bool {
    exists|t: int, k: nat| k >= 1 && is_transaction(ledger, t) && #[trigger] leads_to(ledger, t, t, k)
}

/// References lead down the ranks: a transaction that is reached by one
/// reference or more has a smaller rank than the one the references start
/// from.
pub proof fn lemma_rank_falls(ledger: Ledger, rank: Seq<nat>, from: int, to: int, k: nat)
    requires
        is_ranking(ledger, rank),
        k >= 1,
        is_transaction(ledger, to),
        leads_to(ledger, from, to, k),
    ensures
        is_transaction(ledger, from),
        rank[to - 2] < rank[from - 2],
    decreases k,
{
    let left = ledger[from - 2].left;
    let right = ledger[from - 2].right;
    let next = if leads_to(ledger, left, to, (k - 1) as nat) {
        left
    } else {
        right
    };
    assert(leads_to(ledger, next, to, (k - 1) as nat));
    if k == 1 {
        assert(next == to);
        assert(refers(ledger, from, to));
    } else {
        lemma_rank_falls(ledger, rank, next, to, (k - 1) as nat);
        assert(refers(ledger, from, next));
    }
}

/// A ledger in which a transaction leads back to itself is not acyclic.
pub proof fn lemma_cycle_is_not_acyclic(ledger: Ledger)
    requires
        has_cycle(ledger),
    ensures
        !acyclic(ledger),
{
    if acyclic(ledger) {
        let rank = ranking(ledger);
        let (t, k) = choose|t: int, k: nat|
            k >= 1 && is_transaction(ledger, t) && #[trigger] leads_to(ledger, t, t, k);
        lemma_rank_falls(ledger, rank, t, t, k);
    }
}

/// Whether the vertex `v` is marked in `marks`, which holds one mark for each
/// vertex, the root first.
pub open spec fn marked(marks: Seq<bool>, v: int) -> bool {
    1 <= v <= marks.len() && marks[v - 1]
}

/// Where the root is marked and every transaction that refers to a marked
/// vertex is marked, every vertex that leads to the root is marked.
pub proof fn lemma_marks_cover(ledger: Ledger, marks: Seq<bool>, v: int, k: nat)
    requires
        marks.len() == ledger.len() + 1,
        marked(marks, 1),
        forall|t: int, w: int| marked(marks, w) && #[trigger] refers(ledger, t, w) ==> marked(marks, t),
        reaches_root_in(ledger, v, k),
    ensures
        marked(marks, v),
    decreases k,
{
    if k > 0 {
        let left = ledger[v - 2].left;
        let right = ledger[v - 2].right;
        if reaches_root_in(ledger, left, (k - 1) as nat) {
            lemma_marks_cover(ledger, marks, left, (k - 1) as nat);
            assert(refers(ledger, v, left));
        } else {
            lemma_marks_cover(ledger, marks, right, (k - 1) as nat);
            assert(refers(ledger, v, right));
        }
    }
}

/// Vertices listed without repetition are no more than the ledger has, and
/// where they are as many, every vertex is listed.
pub proof fn lemma_distinct_vertices(ledger: Ledger, list: Seq<int>)
    requires
        list.no_duplicates(),
        forall|k: int| 0 <= k < list.len() ==> is_vertex(ledger, #[trigger] list[k]),
    ensures
        list.len() <= ledger.len() + 1,
        list.len() == ledger.len() + 1 ==> forall|v: int|
            is_vertex(ledger, v) ==> #[trigger] list.contains(v),
        (forall|v: int| is_vertex(ledger, v) ==> #[trigger] list.contains(v)) ==> list.len()
            == ledger.len() + 1,
{
    let vertices = set_int_range(1, ledger.len() as int + 2);
    lemma_int_range(1, ledger.len() as int + 2);
    list.unique_seq_to_set();
    assert(list.to_set().subset_of(vertices)) by {
        assert forall|v: int| list.to_set().contains(v) implies vertices.contains(v) by {
            let k = choose|k: int| 0 <= k < list.len() && list[k] == v;
            assert(is_vertex(ledger, list[k]));
        }
    }
    lemma_len_subset(list.to_set(), vertices);
    if list.len() == ledger.len() + 1 {
        lemma_subset_equality(list.to_set(), vertices);
        assert forall|v: int| is_vertex(ledger, v) implies #[trigger] list.contains(v) by {
            assert(vertices.contains(v));
            assert(list.to_set().contains(v));
        }
    }
    if forall|v: int| is_vertex(ledger, v) ==> #[trigger] list.contains(v) {
        assert(vertices.subset_of(list.to_set())) by {
            assert forall|v: int| vertices.contains(v) implies list.to_set().contains(v) by {
                assert(is_vertex(ledger, v));
                assert(list.contains(v));
            }
        }
        lemma_len_subset(vertices, list.to_set());
    }
}

} // verus!
