//! Tests of the change-set graph.

use council_server::graph::ChangeSetGraph;
use council_server::Error;

fn ch(s: &str) -> String {
    String::from(s)
}

#[test]
fn merge_tracks_declared_nodes_and_dependencies() {
    let mut g = ChangeSetGraph::default();
    g.merge_dependency_graph(ch("w1"), vec![(1, vec![2]), (2, vec![3]), (3, vec![])], 10)
        .unwrap();
    assert!(!g.is_empty());
    let available = g.fetch_all_available();
    assert_eq!(available, vec![(ch("w1"), 3)]);
    assert_eq!(g.fetch_all_available(), vec![]);
}

#[test]
fn completion_cascades_and_removes_change_set() {
    let mut g = ChangeSetGraph::default();
    g.merge_dependency_graph(ch("w1"), vec![(1, vec![2]), (2, vec![])], 10).unwrap();
    assert_eq!(g.fetch_all_available(), vec![(ch("w1"), 2)]);
    let secondary = g.mark_node_as_processed(ch("w1"), 10, 2).unwrap();
    assert_eq!(secondary, Vec::<String>::new());
    assert_eq!(g.fetch_all_available(), vec![(ch("w1"), 1)]);
    g.mark_node_as_processed(ch("w1"), 10, 1).unwrap();
    assert!(g.is_empty());
}

#[test]
fn completion_returns_secondary_subscribers() {
    let mut g = ChangeSetGraph::default();
    g.merge_dependency_graph(ch("w1"), vec![(5, vec![])], 10).unwrap();
    g.merge_dependency_graph(ch("w2"), vec![(5, vec![])], 10).unwrap();
    assert_eq!(g.fetch_all_available(), vec![(ch("w1"), 5)]);
    let secondary = g.mark_node_as_processed(ch("w1"), 10, 5).unwrap();
    assert_eq!(secondary, vec![ch("w2")]);
    assert!(g.is_empty());
}

#[test]
fn mark_unknown_node_is_rejected() {
    let mut g = ChangeSetGraph::default();
    assert_eq!(g.mark_node_as_processed(ch("w1"), 10, 5), Err(Error::UnknownNodeId));
    g.merge_dependency_graph(ch("w1"), vec![(5, vec![])], 10).unwrap();
    assert_eq!(g.mark_node_as_processed(ch("w1"), 10, 6), Err(Error::UnknownNodeId));
}

#[test]
fn mark_by_non_processor_is_rejected() {
    let mut g = ChangeSetGraph::default();
    g.merge_dependency_graph(ch("w1"), vec![(5, vec![])], 10).unwrap();
    assert_eq!(
        g.mark_node_as_processed(ch("w1"), 10, 5),
        Err(Error::ShouldNotBeProcessingByJob)
    );
    assert_eq!(g.fetch_all_available(), vec![(ch("w1"), 5)]);
    assert_eq!(
        g.mark_node_as_processed(ch("w2"), 10, 5),
        Err(Error::ShouldNotBeProcessingByJob)
    );
    assert!(g.mark_node_as_processed(ch("w1"), 10, 5).is_ok());
}

#[test]
fn remove_channel_releases_claims_and_deletes_abandoned_nodes() {
    let mut g = ChangeSetGraph::default();
    g.merge_dependency_graph(ch("w1"), vec![(1, vec![])], 10).unwrap();
    g.merge_dependency_graph(ch("w2"), vec![(1, vec![])], 10).unwrap();
    assert_eq!(g.fetch_all_available(), vec![(ch("w1"), 1)]);
    g.remove_channel(10, &ch("w1"));
    assert_eq!(g.fetch_all_available(), vec![(ch("w2"), 1)]);
    g.remove_channel(10, &ch("w2"));
    assert_eq!(g.fetch_all_available(), vec![]);
}

#[test]
fn failure_removes_transitive_dependents() {
    let mut g = ChangeSetGraph::default();
    g.merge_dependency_graph(
        ch("w1"),
        vec![(1, vec![2]), (2, vec![3]), (3, vec![]), (4, vec![])],
        10,
    )
    .unwrap();
    let claimed = g.fetch_all_available();
    assert_eq!(claimed, vec![(ch("w1"), 3), (ch("w1"), 4)]);
    let notified = g.fail_node(10, 3);
    assert_eq!(notified, vec![ch("w1")]);
    assert_eq!(g.mark_node_as_processed(ch("w1"), 10, 1), Err(Error::UnknownNodeId));
    assert_eq!(g.mark_node_as_processed(ch("w1"), 10, 2), Err(Error::UnknownNodeId));
    assert!(g.mark_node_as_processed(ch("w1"), 10, 4).is_ok());
    assert!(g.is_empty());
}

#[test]
fn failure_of_last_node_drops_change_set() {
    let mut g = ChangeSetGraph::default();
    g.merge_dependency_graph(ch("w1"), vec![(1, vec![2]), (2, vec![])], 10).unwrap();
    assert_eq!(g.fetch_all_available(), vec![(ch("w1"), 2)]);
    let notified = g.fail_node(10, 2);
    assert_eq!(notified, vec![ch("w1")]);
    assert!(g.is_empty());
}

#[test]
fn change_sets_are_independent() {
    let mut g = ChangeSetGraph::default();
    g.merge_dependency_graph(ch("w1"), vec![(1, vec![])], 10).unwrap();
    g.merge_dependency_graph(ch("w2"), vec![(1, vec![])], 20).unwrap();
    let available = g.fetch_all_available();
    assert_eq!(available, vec![(ch("w1"), 1), (ch("w2"), 1)]);
    g.mark_node_as_processed(ch("w1"), 10, 1).unwrap();
    assert!(!g.is_empty());
    g.mark_node_as_processed(ch("w2"), 20, 1).unwrap();
    assert!(g.is_empty());
}
