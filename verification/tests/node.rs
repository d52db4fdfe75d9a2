//! Tests of per-node bookkeeping.

use council_server::node::NodeMetadata;

fn ch(s: &str) -> String {
    String::from(s)
}

#[test]
fn merge_is_idempotent_and_claim_is_fifo() {
    let mut n = NodeMetadata::default();
    n.merge_metadata(ch("w1"), &vec![]);
    n.merge_metadata(ch("w2"), &vec![]);
    n.merge_metadata(ch("w1"), &vec![]);
    assert_eq!(n.next_to_process(), Some(ch("w1")));
    assert_eq!(n.next_to_process(), None);
}

#[test]
fn claim_waits_for_dependencies() {
    let mut n = NodeMetadata::default();
    n.merge_metadata(ch("w1"), &vec![7, 8]);
    assert_eq!(n.dependency_count(), 2);
    assert_eq!(n.next_to_process(), None);
    n.remove_dependency(7);
    assert_eq!(n.next_to_process(), None);
    n.remove_dependency(8);
    assert_eq!(n.next_to_process(), Some(ch("w1")));
}

#[test]
fn duplicate_dependencies_are_suppressed() {
    let mut n = NodeMetadata::default();
    n.merge_metadata(ch("w1"), &vec![7, 7]);
    n.merge_metadata(ch("w2"), &vec![7]);
    assert_eq!(n.dependency_count(), 1);
    n.remove_dependency(7);
    assert_eq!(n.dependency_count(), 0);
}

#[test]
fn remove_channel_clears_interest_and_processing() {
    let mut n = NodeMetadata::default();
    n.merge_metadata(ch("w1"), &vec![]);
    n.merge_metadata(ch("w2"), &vec![]);
    assert_eq!(n.next_to_process(), Some(ch("w1")));
    assert!(!n.is_empty());
    n.remove_channel(&ch("w1"));
    assert!(!n.is_empty());
    assert_eq!(n.next_to_process(), Some(ch("w2")));
    n.remove_channel(&ch("w2"));
    assert!(n.is_empty());
}

#[test]
fn second_claim_yields_nothing_while_processing() {
    let mut n = NodeMetadata::default();
    n.merge_metadata(ch("w1"), &vec![]);
    n.merge_metadata(ch("w2"), &vec![]);
    assert_eq!(n.next_to_process(), Some(ch("w1")));
    assert_eq!(n.next_to_process(), None);
    assert_eq!(n.next_to_process(), None);
}

#[test]
fn waits_on_reports_membership() {
    let mut n = NodeMetadata::default();
    n.merge_metadata(ch("w1"), &vec![3, 4]);
    assert!(n.waits_on(3));
    assert!(!n.waits_on(5));
}
