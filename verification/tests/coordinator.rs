//! End-to-end scenarios driven through the coordinator loop.

use council_server::coordinator::{Coordinator, Notification, Request};

fn ch(s: &str) -> String {
    String::from(s)
}

fn register(w: &str, cs: u128) -> Request {
    Request::Register { reply_channel: ch(w), change_set_id: cs }
}

fn submit(w: &str, cs: u128, graph: Vec<(u128, Vec<u128>)>) -> Request {
    Request::GraphSubmitted { reply_channel: ch(w), change_set_id: cs, dependency_graph: graph }
}

fn processed(w: &str, cs: u128, node: u128) -> Request {
    Request::ValueProcessed { reply_channel: ch(w), change_set_id: cs, node_id: node }
}

fn failed(w: &str, cs: u128, node: u128) -> Request {
    Request::ValueProcessingFailed { reply_channel: ch(w), change_set_id: cs, node_id: node }
}

fn cancel(w: &str, cs: u128) -> Request {
    Request::Cancel { reply_channel: ch(w), change_set_id: cs }
}

#[test]
fn linear_chain() {
    let mut c = Coordinator::default();
    let out = c.handle_request(register("w1", 1));
    assert_eq!(out, vec![(ch("w1"), Notification::Continue)]);
    let out = c.handle_request(submit("w1", 1, vec![(10, vec![11]), (11, vec![12]), (12, vec![])]));
    assert_eq!(out, vec![(ch("w1"), Notification::ProcessValue { node_id: 12 })]);
    let out = c.handle_request(processed("w1", 1, 12));
    assert_eq!(out, vec![(ch("w1"), Notification::ProcessValue { node_id: 11 })]);
    let out = c.handle_request(processed("w1", 1, 11));
    assert_eq!(out, vec![(ch("w1"), Notification::ProcessValue { node_id: 10 })]);
    let out = c.handle_request(processed("w1", 1, 10));
    assert_eq!(out, vec![]);
    assert!(c.graph_is_empty());
}

#[test]
fn shared_interest() {
    let mut c = Coordinator::default();
    assert_eq!(
        c.handle_request(register("w1", 1)),
        vec![(ch("w1"), Notification::Continue)]
    );
    let out = c.handle_request(submit("w1", 1, vec![(10, vec![11]), (11, vec![])]));
    assert_eq!(out, vec![(ch("w1"), Notification::ProcessValue { node_id: 11 })]);
    assert_eq!(
        c.handle_request(register("w2", 1)),
        vec![(ch("w2"), Notification::Continue)]
    );
    let out = c.handle_request(submit("w2", 1, vec![(10, vec![11]), (11, vec![])]));
    assert_eq!(out, vec![]);
    let out = c.handle_request(processed("w1", 1, 11));
    assert_eq!(
        out,
        vec![
            (ch("w2"), Notification::ValueAvailable { node_id: 11 }),
            (ch("w1"), Notification::ProcessValue { node_id: 10 }),
        ]
    );
    let out = c.handle_request(processed("w1", 1, 10));
    assert_eq!(out, vec![(ch("w2"), Notification::ValueAvailable { node_id: 10 })]);
    assert!(c.graph_is_empty());
}

#[test]
fn fan_out_completion() {
    let mut c = Coordinator::default();
    c.handle_request(register("w1", 1));
    let out = c.handle_request(submit(
        "w1",
        1,
        vec![(10, vec![30]), (20, vec![30]), (30, vec![])],
    ));
    assert_eq!(out, vec![(ch("w1"), Notification::ProcessValue { node_id: 30 })]);
    let out = c.handle_request(processed("w1", 1, 30));
    assert_eq!(
        out,
        vec![
            (ch("w1"), Notification::ProcessValue { node_id: 10 }),
            (ch("w1"), Notification::ProcessValue { node_id: 20 }),
        ]
    );
    assert_eq!(c.handle_request(processed("w1", 1, 20)), vec![]);
    assert_eq!(c.handle_request(processed("w1", 1, 10)), vec![]);
    assert!(c.graph_is_empty());
}

#[test]
fn disconnect_mid_flight_passes_claim_on() {
    let mut c = Coordinator::default();
    c.handle_request(register("w1", 1));
    let out = c.handle_request(submit("w1", 1, vec![(10, vec![])]));
    assert_eq!(out, vec![(ch("w1"), Notification::ProcessValue { node_id: 10 })]);
    c.handle_request(register("w2", 1));
    let out = c.handle_request(submit("w2", 1, vec![(10, vec![])]));
    assert_eq!(out, vec![]);
    let out = c.handle_request(cancel("w1", 1));
    assert_eq!(out, vec![(ch("w2"), Notification::ProcessValue { node_id: 10 })]);
    let out = c.handle_request(processed("w2", 1, 10));
    assert_eq!(out, vec![]);
    assert!(c.graph_is_empty());
}

#[test]
fn failure_cascade() {
    let mut c = Coordinator::default();
    c.handle_request(register("w1", 1));
    let out = c.handle_request(submit("w1", 1, vec![(10, vec![11]), (11, vec![])]));
    assert_eq!(out, vec![(ch("w1"), Notification::ProcessValue { node_id: 11 })]);
    let out = c.handle_request(failed("w1", 1, 11));
    assert_eq!(
        out,
        vec![(ch("w1"), Notification::ValueProcessingFailed { node_id: 11 })]
    );
    assert!(c.graph_is_empty());
    assert_eq!(c.handle_request(processed("w1", 1, 10)), vec![]);
}

#[test]
fn queue_serialization() {
    let mut c = Coordinator::default();
    let out = c.handle_request(register("w1", 1));
    assert_eq!(out, vec![(ch("w1"), Notification::Continue)]);
    let out = c.handle_request(register("w2", 1));
    assert_eq!(out, vec![]);
    let out = c.handle_request(submit("w2", 1, vec![(10, vec![])]));
    assert_eq!(out, vec![]);
    let out = c.handle_request(submit("w1", 1, vec![(10, vec![])]));
    assert_eq!(
        out,
        vec![
            (ch("w2"), Notification::Continue),
            (ch("w1"), Notification::ProcessValue { node_id: 10 }),
        ]
    );
    let out = c.handle_request(submit("w2", 1, vec![(10, vec![])]));
    assert_eq!(out, vec![]);
    let out = c.handle_request(processed("w1", 1, 10));
    assert_eq!(out, vec![(ch("w2"), Notification::ValueAvailable { node_id: 10 })]);
    assert!(c.graph_is_empty());
}

#[test]
fn cancel_releases_queue_slot() {
    let mut c = Coordinator::default();
    assert_eq!(
        c.handle_request(register("w1", 1)),
        vec![(ch("w1"), Notification::Continue)]
    );
    assert_eq!(c.handle_request(register("w2", 1)), vec![]);
    let out = c.handle_request(cancel("w1", 1));
    assert_eq!(out, vec![(ch("w2"), Notification::Continue)]);
    let out = c.handle_request(submit("w2", 1, vec![(10, vec![])]));
    assert_eq!(out, vec![(ch("w2"), Notification::ProcessValue { node_id: 10 })]);
}

#[test]
fn submission_without_slot_is_ignored() {
    let mut c = Coordinator::default();
    let out = c.handle_request(submit("w1", 1, vec![(10, vec![])]));
    assert_eq!(out, vec![]);
    assert!(c.graph_is_empty());
    c.handle_request(register("w1", 1));
    let out = c.handle_request(submit("w2", 1, vec![(10, vec![])]));
    assert_eq!(out, vec![]);
    assert!(c.graph_is_empty());
}
