use conv::ValueFrom;
use graphstats::graph::Graph;
use graphstats::id::{Id, NonRootId};
use graphstats::stats::{Depths, InReferences, TimeUnits, Timestamps, Totals};
use graphstats::transaction::Transaction;
use std::collections::HashMap;
use std::convert::TryFrom;

fn tx(id: usize, left: usize, right: usize, timestamp: usize) -> Transaction {
    Transaction::new(
        NonRootId::try_from(id).unwrap(),
        Id::try_from(left).unwrap(),
        Id::try_from(right).unwrap(),
        timestamp,
    )
}

fn graph() -> Graph {
    let mut graph = Graph::default();
    graph.push(tx(2, 1, 1, 0));
    graph.push(tx(3, 1, 2, 0));
    graph.push(tx(4, 2, 2, 1));
    graph.push(tx(5, 3, 6, 3));
    graph.push(tx(6, 3, 3, 2));
    graph
}

fn graph_from_str() -> Graph {
    let input = String::from("5\n1 1 0\n1 2 0\n2 2 1\n3 6 3\n3 3 2");
    let lines: Vec<String> = input.lines().map(String::from).collect();
    Graph::parse(&lines).unwrap()
}

#[test]
fn test() {
    let graph = graph();
    assert_eq!(graph, graph_from_str());
    assert_eq!(graph.is_connected_acyclic(), Some(true));
    assert!(!graph.is_bipartite());

    let n_transactions = f64::value_from(graph.len()).unwrap();

    let mut depths = Depths::new(&graph);
    let mut in_references = InReferences::new(&graph);
    let mut time_units = TimeUnits::default();
    let mut timestamps = Timestamps::new(&graph);

    for transaction in graph.transactions() {
        depths.accumulate(transaction);
        in_references.accumulate(transaction);
        time_units.accumulate(transaction);
        timestamps.accumulate(transaction);
    }

    let n_unique_depths = f64::value_from(depths.unique_depths()).unwrap();
    let sum_of_depths = f64::value_from(depths.sum_of_depths()).unwrap();
    let res = format!(
        "> AVG DAG DEPTH: {:.2}\n> AVG TXS PER DEPTH: {:.2}",
        sum_of_depths / (n_transactions + 1.0),
        n_transactions / n_unique_depths
    );
    assert_eq!(res, "> AVG DAG DEPTH: 1.33\n> AVG TXS PER DEPTH: 2.50");

    let total_references = f64::value_from(in_references.total_references()).unwrap();
    let res = format!("> AVG REF: {:.2}", total_references / (n_transactions + 1.0));
    assert_eq!(res, "> AVG REF: 1.67");

    let max_timestamp = f64::value_from(time_units.max_timestamp()).unwrap();
    let res = format!("> AVG TXS PER TIME UNIT: {:.2}", max_timestamp / n_transactions);
    assert_eq!(res, "> AVG TXS PER TIME UNIT: 0.60");

    let n_unique_timestamps = f64::value_from(timestamps.unique_timestamps()).unwrap();
    let res = format!(
        "> AVG TXS PER TIMESTAMP: {:.2}",
        n_transactions / n_unique_timestamps
    );
    assert_eq!(res, "> AVG TXS PER TIMESTAMP: 1.25");
}

#[test]
fn stats_totals_of_the_five_transactions() {
    let graph = graph_from_str();
    let mut depths = Depths::new(&graph);
    let mut in_references = InReferences::new(&graph);
    let mut time_units = TimeUnits::new();
    let mut timestamps = Timestamps::new(&graph);
    assert_eq!(depths.sum_of_depths(), 0);
    assert_eq!(depths.unique_depths(), 0);
    assert_eq!(in_references.total_references(), 0);
    assert_eq!(time_units.max_timestamp(), 0);
    assert_eq!(timestamps.unique_timestamps(), 0);
    for transaction in graph.transactions() {
        depths.accumulate(transaction);
        in_references.accumulate(transaction);
        time_units.accumulate(transaction);
        timestamps.accumulate(transaction);
    }
    assert_eq!(depths.sum_of_depths(), 8);
    assert_eq!(depths.unique_depths(), 2);
    assert_eq!(in_references.total_references(), 10);
    assert_eq!(time_units.max_timestamp(), 3);
    assert_eq!(timestamps.unique_timestamps(), 4);
}

#[test]
fn stats_depth_of_each_transaction() {
    let graph = graph_from_str();
    let mut cache = HashMap::new();
    let expected = [1usize, 1, 2, 2, 2];
    for (i, want) in expected.iter().enumerate() {
        let id = NonRootId::try_from(i + 2).unwrap();
        assert_eq!(graph.depth(id, &mut cache), *want);
        assert_eq!(cache.get(&(i + 2)), Some(want));
    }
    assert_eq!(cache.len(), 5);
}

#[test]
fn stats_depth_is_one_more_than_the_shallower_reference() {
    let n = 40usize;
    let mut text = format!("{}", n);
    for i in 0..n {
        let left = if i < 3 { 1 } else { i - 1 };
        let right = if i % 2 == 0 { 1 + i / 2 } else { i + 1 };
        text.push_str(&format!("\n{} {} {}", left, right, i));
    }
    let lines: Vec<String> = text.lines().map(String::from).collect();
    let graph = Graph::parse(&lines).unwrap();
    assert_eq!(graph.is_connected_acyclic(), Some(true));
    let mut cache = HashMap::new();
    let mut fresh = HashMap::new();
    for t in graph.transactions() {
        let of = |id: Id, cache: &mut HashMap<usize, usize>| match id {
            Id::Root => 0,
            Id::Transaction(id) => graph.depth(id, cache),
        };
        let left = of(t.left(), &mut cache);
        let right = of(t.right(), &mut cache);
        let depth = graph.depth(t.id(), &mut cache);
        assert!(depth >= 1);
        assert_eq!(depth, 1 + left.min(right));
        fresh.clear();
        assert_eq!(graph.depth(t.id(), &mut fresh), depth);
    }
}

#[test]
fn stats_depth_of_a_long_chain() {
    let n = 300usize;
    let mut text = format!("{}", n);
    for i in 0..n {
        text.push_str(&format!("\n{} {} 0", i + 1, i + 1));
    }
    let lines: Vec<String> = text.lines().map(String::from).collect();
    let graph = Graph::parse(&lines).unwrap();
    let mut cache = HashMap::new();
    let last = NonRootId::try_from(n + 1).unwrap();
    assert_eq!(graph.depth(last, &mut cache), n);
    assert_eq!(cache.len(), n);
    let mut depths = Depths::new(&graph);
    for transaction in graph.transactions() {
        depths.accumulate(transaction);
    }
    assert_eq!(depths.sum_of_depths(), n * (n + 1) / 2);
    assert_eq!(depths.unique_depths(), n);
}

#[test]
fn stats_in_references_count_the_root_once() {
    let mut graph = Graph::default();
    graph.push(tx(2, 1, 1, 9));
    graph.push(tx(3, 2, 2, 4));
    let mut in_references = InReferences::new(&graph);
    in_references.accumulate(&graph.transactions()[0]);
    assert_eq!(in_references.total_references(), 4);
    in_references.accumulate(&graph.transactions()[1]);
    assert_eq!(in_references.total_references(), 4);
}

#[test]
fn stats_time_units_keep_the_largest() {
    let mut time_units = TimeUnits::default();
    for (i, timestamp) in [5usize, 3, 9, 9, 0].iter().enumerate() {
        time_units.accumulate(&tx(i + 2, 1, 1, *timestamp));
        assert_eq!(
            time_units.max_timestamp(),
            [5usize, 5, 9, 9, 9][i]
        );
    }
}

#[test]
fn stats_timestamps_count_each_once() {
    let graph = Graph::default();
    let mut timestamps = Timestamps::new(&graph);
    for (i, timestamp) in [5usize, 3, 5, 5, 0, 3].iter().enumerate() {
        timestamps.accumulate(&tx(i + 2, 1, 1, *timestamp));
    }
    assert_eq!(timestamps.unique_timestamps(), 3);
}

#[test]
fn stats_collect_gathers_the_totals() {
    let totals = Totals::collect(&graph_from_str());
    assert_eq!(
        totals,
        Totals {
            transactions: 5,
            sum_of_depths: 8,
            unique_depths: 2,
            total_references: 10,
            max_timestamp: 3,
            unique_timestamps: 4,
        }
    );
    let totals = Totals::collect(&Graph::default());
    assert_eq!(
        totals,
        Totals {
            transactions: 0,
            sum_of_depths: 0,
            unique_depths: 0,
            total_references: 0,
            max_timestamp: 0,
            unique_timestamps: 0,
        }
    );
}

#[test]
fn stats_collect_counts_two_references_for_each_transaction() {
    for n in 1..30usize {
        let mut text = format!("{}", n);
        for i in 0..n {
            text.push_str(&format!("\n{} {} {}", 1 + i / 2, 1 + i / 3, i % 4));
        }
        let lines: Vec<String> = text.lines().map(String::from).collect();
        let graph = Graph::parse(&lines).unwrap();
        assert_eq!(graph.is_connected_acyclic(), Some(true));
        let totals = Totals::collect(&graph);
        assert_eq!(totals.transactions, n);
        assert_eq!(totals.total_references, 2 * n);
        assert_eq!(totals.max_timestamp, (n - 1).min(3));
        assert_eq!(totals.unique_timestamps, n.min(4));
    }
}
