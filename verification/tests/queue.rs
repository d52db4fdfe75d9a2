//! Tests of the value-creation queue.

use council_server::queue::ValueCreationQueue;
use council_server::Error;

fn ch(s: &str) -> String {
    String::from(s)
}

#[test]
fn fetch_order_equals_push_order() {
    let mut q = ValueCreationQueue::default();
    q.push(ch("w1"));
    q.push(ch("w2"));
    q.push(ch("w3"));
    let mut order: Vec<String> = Vec::new();
    for _ in 0..3 {
        let next = q.fetch_next().expect("a waiting channel should be promoted");
        order.push(next.clone());
        assert!(q.is_busy());
        q.finished_processing(&next).expect("the holder may release the slot");
    }
    assert_eq!(order, vec![ch("w1"), ch("w2"), ch("w3")]);
    assert!(q.fetch_next().is_none());
}

#[test]
fn fetch_while_busy_yields_nothing() {
    let mut q = ValueCreationQueue::default();
    q.push(ch("w1"));
    q.push(ch("w2"));
    assert_eq!(q.fetch_next(), Some(ch("w1")));
    assert!(q.is_busy());
    assert_eq!(q.fetch_next(), None);
    q.finished_processing(&ch("w1")).unwrap();
    assert_eq!(q.fetch_next(), Some(ch("w2")));
}

#[test]
fn finished_processing_by_non_holder_is_rejected() {
    let mut q = ValueCreationQueue::default();
    q.push(ch("w1"));
    assert_eq!(q.fetch_next(), Some(ch("w1")));
    assert_eq!(q.finished_processing(&ch("w2")), Err(Error::UnexpectedJobId));
    assert!(q.is_busy());
    assert_eq!(q.finished_processing(&ch("w1")), Ok(()));
    assert!(!q.is_busy());
}

#[test]
fn finished_processing_on_idle_queue_is_rejected() {
    let mut q = ValueCreationQueue::default();
    assert_eq!(q.finished_processing(&ch("w1")), Err(Error::UnexpectedJobId));
}

#[test]
fn remove_frees_slot_and_waiting_entries() {
    let mut q = ValueCreationQueue::default();
    q.push(ch("w1"));
    q.push(ch("w2"));
    q.push(ch("w3"));
    q.push(ch("w2"));
    assert_eq!(q.fetch_next(), Some(ch("w1")));
    q.remove(&ch("w2"));
    assert!(q.is_busy());
    q.remove(&ch("w1"));
    assert!(!q.is_busy());
    assert_eq!(q.fetch_next(), Some(ch("w3")));
    q.finished_processing(&ch("w3")).unwrap();
    assert_eq!(q.fetch_next(), None);
}
