use graphstats::graph::{Error, Graph};
use graphstats::id::{Id, NonRootId};
use graphstats::transaction::{self, Transaction};
use std::convert::TryFrom;

fn lines(text: &str) -> Vec<String> {
    text.lines().map(String::from).collect()
}

fn tx(id: usize, left: usize, right: usize, timestamp: usize) -> Transaction {
    Transaction::new(
        NonRootId::try_from(id).unwrap(),
        Id::try_from(left).unwrap(),
        Id::try_from(right).unwrap(),
        timestamp,
    )
}

fn graph() -> Graph {
    let mut graph = Graph::default();
    graph.push(tx(2, 1, 1, 120));
    graph.push(tx(3, 2, 1, 130));
    graph
}

fn bp_graph() -> Graph {
    let mut graph = Graph::default();
    graph.push(tx(2, 1, 1, 120));
    graph.push(tx(3, 2, 2, 130));
    graph
}

fn cyclic_graph() -> Graph {
    let mut graph = Graph::default();
    graph.push(tx(2, 1, 3, 120));
    graph.push(tx(3, 1, 4, 130));
    graph.push(tx(4, 1, 2, 130));
    graph
}

fn unconnected_graph() -> Graph {
    let mut graph = Graph::default();
    graph.push(tx(2, 3, 3, 120));
    graph.push(tx(3, 2, 2, 130));
    graph
}

#[test]
fn graph_parse_success() {
    let input = String::from("2\n1 1 120\n2 1 130");
    let res = Graph::parse(&lines(&input)).unwrap();
    assert_eq!(res.len(), 2);
    assert_eq!(res, graph());
}

#[test]
fn graph_parse_fail() {
    let input = String::from("\n1 1 120\n2 1 130");
    let res = Graph::parse(&lines(&input));
    let parse_err = usize::from_str_radix("", 10).err().unwrap();

    match res {
        Err(Error::InvalidNumberOfTransactions(e)) => assert_eq!(e, parse_err),
        Err(e) => panic!("Unexpected error type: {:?}", e),
        Ok(_) => panic!("Unexpected success"),
    }
}

#[test]
fn graph_bipartite() {
    assert!(!graph().is_bipartite());
    assert!(bp_graph().is_bipartite());
}

#[test]
fn bipartite() {
    assert!(bp_graph().is_bipartite());
}

#[test]
fn not_bipartite() {
    assert!(!graph().is_bipartite());
}

#[test]
fn connected_acyclic() {
    assert_eq!(graph().is_connected_acyclic(), Some(true));
    assert_eq!(bp_graph().is_connected_acyclic(), Some(true));
    assert_eq!(cyclic_graph().is_connected_acyclic(), Some(false));
    assert_eq!(unconnected_graph().is_connected_acyclic(), None);
}

#[test]
fn graph_parse_missing_count() {
    assert_eq!(
        Graph::parse(&lines("")),
        Err(Error::MissingNumberOfTransactions)
    );
    assert_eq!(
        Graph::parse(&Vec::new()),
        Err(Error::MissingNumberOfTransactions)
    );
}

#[test]
fn graph_parse_count_is_the_whole_first_line() {
    let err = usize::from_str_radix("2 ", 10).err().unwrap();
    assert_eq!(
        Graph::parse(&lines("2 \n1 1 0\n1 1 0")),
        Err(Error::InvalidNumberOfTransactions(err))
    );
    let err = usize::from_str_radix("two", 10).err().unwrap();
    assert_eq!(
        Graph::parse(&lines("two\n1 1 0\n1 1 0")),
        Err(Error::InvalidNumberOfTransactions(err))
    );
    assert_eq!(Graph::parse(&lines("+1\n1 1 0")).unwrap().len(), 1);
}

#[test]
fn graph_parse_too_many() {
    assert_eq!(
        Graph::parse(&lines("2\n1 1 0\n1 1 0\n1 1 0")),
        Err(Error::TooManyTransactions)
    );
    assert_eq!(
        Graph::parse(&lines("0\n1 1 0")),
        Err(Error::TooManyTransactions)
    );
}

#[test]
fn graph_parse_too_little() {
    assert_eq!(
        Graph::parse(&lines("3\n1 1 0\n1 1 0")),
        Err(Error::TooLittleTransactions)
    );
    assert_eq!(Graph::parse(&lines("1")), Err(Error::TooLittleTransactions));
    assert_eq!(
        Graph::parse(&lines("18446744073709551615\n1 1 0")),
        Err(Error::TooLittleTransactions)
    );
}

#[test]
fn graph_parse_empty_ledger() {
    let graph = Graph::parse(&lines("0")).unwrap();
    assert_eq!(graph.len(), 0);
    assert!(graph.is_empty());
    assert_eq!(graph, Graph::default());
    assert_eq!(graph.is_connected_acyclic(), Some(true));
    assert!(graph.is_bipartite());
}

#[test]
fn graph_parse_invalid_references() {
    assert_eq!(
        Graph::parse(&lines("2\n4 1 0\n1 1 0")),
        Err(Error::InvalidLeft(
            NonRootId::try_from(2).unwrap(),
            Id::try_from(4).unwrap(),
            3
        ))
    );
    assert_eq!(
        Graph::parse(&lines("2\n1 1 0\n3 9 0")),
        Err(Error::InvalidRight(
            NonRootId::try_from(3).unwrap(),
            Id::try_from(9).unwrap(),
            3
        ))
    );
    assert_eq!(
        Graph::parse(&lines("2\n5 6 0\n1 1 0")),
        Err(Error::InvalidLeft(
            NonRootId::try_from(2).unwrap(),
            Id::try_from(5).unwrap(),
            3
        ))
    );
}

#[test]
fn graph_parse_reference_to_a_later_line() {
    let graph = Graph::parse(&lines("2\n3 1 0\n1 1 0")).unwrap();
    assert_eq!(graph.len(), 2);
    assert_eq!(graph.transactions()[0], tx(2, 3, 1, 0));
    assert_eq!(graph.is_connected_acyclic(), Some(true));
}

#[test]
fn graph_parse_invalid_transaction() {
    assert_eq!(
        Graph::parse(&lines("2\n1 1 0\n1 1")),
        Err(Error::InvalidTransaction(
            transaction::Error::MissingTimestamp
        ))
    );
    assert_eq!(
        Graph::parse(&lines("1\n")),
        Err(Error::TooLittleTransactions)
    );
    assert_eq!(
        Graph::parse(&lines("1\n\n")),
        Err(Error::InvalidTransaction(transaction::Error::MissingLeft))
    );
    assert_eq!(
        Graph::parse(&lines("1\n1")),
        Err(Error::InvalidTransaction(transaction::Error::MissingRight))
    );
    let err = usize::from_str_radix("x", 10).err().unwrap();
    assert_eq!(
        Graph::parse(&lines("1\nx 1 1")),
        Err(Error::InvalidTransaction(transaction::Error::InvalidLeft(
            err
        )))
    );
}

#[test]
fn graph_parse_first_fault_wins() {
    assert_eq!(
        Graph::parse(&lines("1\n1 1\n1 1 0")),
        Err(Error::InvalidTransaction(
            transaction::Error::MissingTimestamp
        ))
    );
    assert_eq!(
        Graph::parse(&lines("1\n1 1 0\nnonsense")),
        Err(Error::TooManyTransactions)
    );
}

#[test]
fn graph_parse_has_as_many_transactions_as_announced() {
    for n in 0..20usize {
        let mut text = format!("{}", n);
        for i in 0..n {
            text.push_str(&format!("\n{} 1 {}", i + 1, i));
        }
        let graph = Graph::parse(&lines(&text)).unwrap();
        assert_eq!(graph.len(), n);
        assert_eq!(graph.is_empty(), n == 0);
        for (i, t) in graph.transactions().iter().enumerate() {
            assert_eq!(t.id().value(), i + 2);
        }
    }
}

#[test]
fn graph_in_refs_count_and_sources() {
    let graph = Graph::parse(&lines("5\n1 1 0\n1 2 0\n2 2 1\n3 6 3\n3 3 2")).unwrap();
    let ids = |list: &[usize]| -> Vec<NonRootId> {
        list.iter().map(|v| NonRootId::try_from(*v).unwrap()).collect()
    };
    let root = graph.in_refs(Id::Root).unwrap();
    assert_eq!(root.count(), 3);
    assert_eq!(root.sources(), &ids(&[2, 3]));
    let second = graph.in_refs(Id::try_from(2).unwrap()).unwrap();
    assert_eq!(second.count(), 3);
    assert_eq!(second.sources(), &ids(&[3, 4]));
    let third = graph.in_refs(Id::try_from(3).unwrap()).unwrap();
    assert_eq!(third.count(), 3);
    assert_eq!(third.sources(), &ids(&[5, 6]));
    let sixth = graph.in_refs(Id::try_from(6).unwrap()).unwrap();
    assert_eq!(sixth.count(), 1);
    assert_eq!(sixth.sources(), &ids(&[5]));
    assert!(graph.in_refs(Id::try_from(4).unwrap()).is_none());
    assert!(graph.in_refs(Id::try_from(5).unwrap()).is_none());
    assert!(graph.in_refs(Id::try_from(7).unwrap()).is_none());
}

#[test]
fn graph_index_finds_the_transaction() {
    let graph = cyclic_graph();
    for v in 2..=4usize {
        let id = NonRootId::try_from(v).unwrap();
        assert_eq!(graph.index(id).id(), id);
    }
    assert_eq!(graph.index(NonRootId::try_from(3).unwrap()), &tx(3, 1, 4, 130));
}

#[test]
fn graph_with_capacity_is_empty() {
    let graph = Graph::with_capacity(10);
    assert_eq!(graph.len(), 0);
    assert!(graph.is_empty());
    assert_eq!(graph.transactions().len(), 0);
    assert_eq!(graph, Graph::default());
}

#[test]
fn graph_cycle_through_three_left_references() {
    let mut graph = Graph::default();
    graph.push(tx(2, 3, 1, 0));
    graph.push(tx(3, 4, 1, 0));
    graph.push(tx(4, 2, 1, 0));
    assert_eq!(graph.is_connected_acyclic(), Some(false));
    assert!(!graph.is_acyclic());
    assert!(!graph.is_ranked());
    assert!(!graph.is_bipartite());
}

#[test]
fn graph_cycle_does_not_hide_a_lost_transaction() {
    let mut graph = Graph::default();
    graph.push(tx(2, 1, 2, 0));
    graph.push(tx(3, 1, 1, 0));
    assert_eq!(graph.is_connected_acyclic(), Some(false));
    let mut graph = Graph::default();
    graph.push(tx(2, 1, 2, 0));
    graph.push(tx(3, 4, 4, 0));
    graph.push(tx(4, 3, 3, 0));
    assert_eq!(graph.is_connected_acyclic(), None);
}

#[test]
fn graph_lost_transaction() {
    let mut graph = Graph::default();
    graph.push(tx(2, 1, 1, 0));
    graph.push(tx(3, 3, 3, 0));
    assert_eq!(graph.is_connected_acyclic(), None);
    assert_eq!(graph.reached(), vec![true, true, false]);
    assert!(!graph.is_ranked());
}

#[test]
fn graph_reference_beyond_the_ledger() {
    let mut graph = Graph::default();
    graph.push(tx(2, 1, 9, 0));
    assert_eq!(graph.is_connected_acyclic(), Some(true));
    assert!(graph.is_bipartite());
    let mut graph = Graph::default();
    graph.push(tx(2, 9, 9, 0));
    assert_eq!(graph.is_connected_acyclic(), None);
}

#[test]
fn graph_reached_marks_what_leads_to_the_root() {
    assert_eq!(cyclic_graph().reached(), vec![true, true, true, true]);
    assert_eq!(unconnected_graph().reached(), vec![true, false, false]);
    assert_eq!(Graph::default().reached(), vec![true]);
}

#[test]
fn graph_acyclic_diamonds() {
    let n = 60usize;
    let mut text = format!("{}", n);
    for i in 0..n {
        let below = if i < 2 { 1 } else { i };
        let below2 = if i < 2 { 1 } else { i + 1 };
        text.push_str(&format!("\n{} {} {}", below, below2, i));
    }
    let graph = Graph::parse(&lines(&text)).unwrap();
    assert_eq!(graph.is_connected_acyclic(), Some(true));
    assert!(graph.is_acyclic());
    assert!(graph.is_ranked());
}

#[test]
fn graph_bipartite_chain_and_odd_diamond() {
    let graph = Graph::parse(&lines("4\n1 1 0\n2 2 0\n3 3 0\n4 4 0")).unwrap();
    assert!(graph.is_bipartite());
    let graph = Graph::parse(&lines("4\n1 1 0\n2 2 0\n3 3 0\n4 2 0")).unwrap();
    assert!(graph.is_bipartite());
    let graph = Graph::parse(&lines("4\n1 1 0\n2 2 0\n3 3 0\n4 3 0")).unwrap();
    assert!(!graph.is_bipartite());
    let mut own = Graph::default();
    own.push(tx(2, 1, 2, 0));
    assert!(!own.is_bipartite());
}

#[test]
fn graph_validate_complete_ledgers() {
    assert_eq!(graph().validate(), Ok(false));
    assert_eq!(bp_graph().validate(), Ok(true));
    assert_eq!(cyclic_graph().validate(), Ok(false));
    assert_eq!(Graph::default().validate(), Ok(true));
}

#[test]
fn graph_validate_finds_the_first_stray_reference() {
    let mut graph = Graph::default();
    graph.push(tx(2, 1, 1, 0));
    graph.push(tx(3, 1, 5, 0));
    graph.push(tx(4, 9, 8, 0));
    assert_eq!(
        graph.validate(),
        Err(Error::InvalidRight(
            NonRootId::try_from(3).unwrap(),
            Id::try_from(5).unwrap(),
            4
        ))
    );
    let mut graph = Graph::default();
    graph.push(tx(2, 4, 5, 0));
    assert_eq!(
        graph.validate(),
        Err(Error::InvalidLeft(
            NonRootId::try_from(2).unwrap(),
            Id::try_from(4).unwrap(),
            2
        ))
    );
}
