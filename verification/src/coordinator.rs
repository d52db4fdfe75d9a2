//! The coordinator.
//!
//! A single-owner event loop state: the change-set graph plus one
//! value-creation queue per change set.  Each inbound request performs a
//! bounded mutation and then drains the newly-ready nodes, yielding the
//! notifications to publish.  The surrounding process owns the transport:
//! it feeds requests in one at a time and publishes each returned
//! `(reply channel, notification)` pair.

use vstd::prelude::*;

use crate::graph::{
    entries_model, graph_claim_pass, graph_fail, graph_mark_processed, graph_merge,
    graph_remove_channel, graph_wf, has_key, index_of_key, keys_unique, lemma_index_of_key,
    lemma_upsert_unique, lookup, upsert, ChangeSetGraph, GraphModel,
};
use crate::queue::{
    empty_queue, queue_fetch, queue_finish, queue_push, queue_remove, QueueModel,
    ValueCreationQueue,
};
use crate::{DepGraph, Id};

verus! {

/// A request as it reaches the coordinator, tagged with the reply channel
/// of the worker that sent it.
pub enum Request {
    /// Ask for the change set's graph-mutation slot.
    Register { reply_channel: String, change_set_id: Id },
    /// Deliver the dependency graph; valid only while holding the slot.
    GraphSubmitted { reply_channel: String, change_set_id: Id, dependency_graph: DepGraph },
    /// The worker has computed the node's value.
    ValueProcessed { reply_channel: String, change_set_id: Id, node_id: Id },
    /// The worker failed to compute the node's value.
    ValueProcessingFailed { reply_channel: String, change_set_id: Id, node_id: Id },
    /// The worker withdraws from the change set (sent explicitly, or
    /// synthesized by the transport on disconnect).
    Cancel { reply_channel: String, change_set_id: Id },
}

/// A notification published to one worker's reply channel.
#[derive(Clone, Copy, Debug, PartialEq, Eq, Structural)]
pub enum Notification {
    /// The receiver holds the graph-mutation slot and should submit now.
    Continue,
    /// The receiver is the claimed processor: compute the node's value.
    ProcessValue { node_id: Id },
    /// A value the receiver was waiting on has been produced.
    ValueAvailable { node_id: Id },
    /// A node the receiver subscribed to could not be computed.
    ValueProcessingFailed { node_id: Id },
}

impl View for Notification {
    type V = Notification;

    open spec fn view(&self) -> Notification {
        *self
    }
}

impl DeepView for Notification {
    type V = Notification;

    open spec fn deep_view(&self) -> Notification {
        *self
    }
}

/// Model of a vector of queue entries.
pub open spec fn queues_model(v: Seq<(Id, ValueCreationQueue)>) -> Seq<(Id, QueueModel)> {
    v.map_values(|p: (Id, ValueCreationQueue)| (p.0, p.1@))
}

/// Mathematical state of a `Coordinator`.
#[verifier::ext_equal]
pub ghost struct CoordModel {
    pub graph: GraphModel,
    pub queues: Seq<(Id, QueueModel)>,
}

/// Both components keyed uniquely.
pub open spec fn coord_wf(m: CoordModel) -> bool {
    &&& graph_wf(m.graph)
    &&& keys_unique(m.queues)
}

/// `ProcessValue` notifications for a batch of claimed pairs.
pub open spec fn process_value_notifications(pairs: Seq<(Seq<char>, Id)>) -> Seq<
    (Seq<char>, Notification),
> {
    pairs.map_values(|p: (Seq<char>, Id)| (p.0, Notification::ProcessValue { node_id: p.1 }))
}

/// The same notification for every channel of `subs`, in order.
pub open spec fn fanout_notifications(subs: Seq<Seq<char>>, n: Notification) -> Seq<
    (Seq<char>, Notification),
> {
    subs.map_values(|s: Seq<char>| (s, n))
}

/// `Register`: the channel joins the change set's value-creation queue
/// (created on first use); if the slot is free the head of the line is
/// promoted and told to continue.  The graph is untouched, so there is
/// nothing to drain.
pub open spec fn coord_register(m: CoordModel, ch: Seq<char>, csid: Id) -> (
    CoordModel,
    Seq<(Seq<char>, Notification)>,
) {
    let q0 = if has_key(m.queues, csid) {
        lookup(m.queues, csid)
    } else {
        empty_queue()
    };
    let (q2, next) = queue_fetch(queue_push(q0, ch));
    let out = match next {
        Some(c) => seq![(c, Notification::Continue)],
        None => Seq::<(Seq<char>, Notification)>::empty(),
    };
    (CoordModel { graph: m.graph, queues: upsert(m.queues, csid, q2) }, out)
}

/// `GraphSubmitted`: only the slot holder may submit.  Its graph is
/// merged, the slot is released, the next waiter (if any) is promoted,
/// and the newly-ready nodes are drained.  A submission from anyone else
/// is a protocol violation and is ignored.
pub open spec fn coord_graph_submitted(
    m: CoordModel,
    ch: Seq<char>,
    csid: Id,
    entries: Seq<(Id, Seq<Id>)>,
) -> (CoordModel, Seq<(Seq<char>, Notification)>) {
    let q0 = if has_key(m.queues, csid) {
        lookup(m.queues, csid)
    } else {
        empty_queue()
    };
    if q0.processing != Some(ch) {
        (m, Seq::<(Seq<char>, Notification)>::empty())
    } else {
        let (q2, next) = queue_fetch(queue_finish(q0, ch).0);
        let cont = match next {
            Some(c) => seq![(c, Notification::Continue)],
            None => Seq::<(Seq<char>, Notification)>::empty(),
        };
        let (g2, pairs) = graph_claim_pass(graph_merge(m.graph, ch, entries, csid));
        (
            CoordModel { graph: g2, queues: upsert(m.queues, csid, q2) },
            cont + process_value_notifications(pairs),
        )
    }
}

/// `ValueProcessed`: the node is marked processed; on completion every
/// secondary subscriber hears `ValueAvailable`, and the newly-ready nodes
/// are drained.  A protocol error changes nothing except the drain.
pub open spec fn coord_value_processed(m: CoordModel, ch: Seq<char>, csid: Id, nid: Id) -> (
    CoordModel,
    Seq<(Seq<char>, Notification)>,
) {
    let (g1, reply) = graph_mark_processed(m.graph, ch, csid, nid);
    let avail = match reply {
        Ok(subs) => fanout_notifications(subs, Notification::ValueAvailable { node_id: nid }),
        Err(_) => Seq::<(Seq<char>, Notification)>::empty(),
    };
    let (g2, pairs) = graph_claim_pass(g1);
    (
        CoordModel { graph: g2, queues: m.queues },
        avail + process_value_notifications(pairs),
    )
}

/// `ValueProcessingFailed`: everyone interested in the failed node hears
/// of the failure, the node and its transitive dependents are removed,
/// and the newly-ready nodes are drained.
pub open spec fn coord_value_failed(m: CoordModel, csid: Id, nid: Id) -> (
    CoordModel,
    Seq<(Seq<char>, Notification)>,
) {
    let (g1, subs) = graph_fail(m.graph, csid, nid);
    let fails = fanout_notifications(subs, Notification::ValueProcessingFailed { node_id: nid });
    let (g2, pairs) = graph_claim_pass(g1);
    (
        CoordModel { graph: g2, queues: m.queues },
        fails + process_value_notifications(pairs),
    )
}

/// `Cancel`: the channel withdraws from the change set's nodes and from
/// its value-creation queue; a freed slot promotes the next waiter, and
/// released nodes are drained so the next interested worker can claim
/// them.
pub open spec fn coord_cancel(m: CoordModel, ch: Seq<char>, csid: Id) -> (
    CoordModel,
    Seq<(Seq<char>, Notification)>,
) {
    let g1 = graph_remove_channel(m.graph, csid, ch);
    let (queues2, cont) = if has_key(m.queues, csid) {
        let (q2, next) = queue_fetch(queue_remove(lookup(m.queues, csid), ch));
        (
            upsert(m.queues, csid, q2),
            match next {
                Some(c) => seq![(c, Notification::Continue)],
                None => Seq::<(Seq<char>, Notification)>::empty(),
            },
        )
    } else {
        (m.queues, Seq::<(Seq<char>, Notification)>::empty())
    };
    let (g2, pairs) = graph_claim_pass(g1);
    (
        CoordModel { graph: g2, queues: queues2 },
        cont + process_value_notifications(pairs),
    )
}

/// One step of the coordinator loop: the state after handling `r` and the
/// notifications to publish, in order.
pub open spec fn coord_step(m: CoordModel, r: Request) -> (
    CoordModel,
    Seq<(Seq<char>, Notification)>,
) {
    match r {
        Request::Register { reply_channel, change_set_id } => coord_register(
            m,
            reply_channel@,
            change_set_id,
        ),
        Request::GraphSubmitted { reply_channel, change_set_id, dependency_graph } => {
            coord_graph_submitted(m, reply_channel@, change_set_id, entries_model(dependency_graph@))
        },
        Request::ValueProcessed { reply_channel, change_set_id, node_id } => {
            coord_value_processed(m, reply_channel@, change_set_id, node_id)
        },
        Request::ValueProcessingFailed { reply_channel: _, change_set_id, node_id } => {
            coord_value_failed(m, change_set_id, node_id)
        },
        Request::Cancel { reply_channel, change_set_id } => coord_cancel(
            m,
            reply_channel@,
            change_set_id,
        ),
    }
}

/// Find the position of change set `k` among the queues.
fn find_queue_index(v: &Vec<(Id, ValueCreationQueue)>, k: Id) -> (r: Option<usize>)
    ensures
        match r {
            Some(i) => i < v@.len() && v@[i as int].0 == k,
            None => forall|j: int| 0 <= j < v@.len() ==> v@[j].0 != k,
        },
{
    let mut i: usize = 0;
    while i < v.len()
        invariant
            i <= v@.len(),
            forall|j: int| 0 <= j < i ==> v@[j].0 != k,
        decreases v@.len() - i,
    {
        if v[i].0 == k {
            return Some(i);
        }
        i = i + 1;
    }
    None
}

/// Replacing one queue entry in place, leaving the rest, is an upsert at
/// model level.
proof fn lemma_queues_update(
    qs0: Seq<(Id, ValueCreationQueue)>,
    qs1: Seq<(Id, ValueCreationQueue)>,
    pos: int,
    k: Id,
)
    requires
        keys_unique(queues_model(qs0)),
        0 <= pos < qs0.len(),
        qs0[pos].0 == k,
        qs1.len() == qs0.len(),
        forall|x: int| 0 <= x < qs0.len() && x != pos ==> qs1[x] == qs0[x],
        qs1[pos].0 == k,
    ensures
        has_key(queues_model(qs0), k),
        lookup(queues_model(qs0), k) == qs0[pos].1@,
        queues_model(qs1) == upsert(queues_model(qs0), k, qs1[pos].1@),
        keys_unique(queues_model(qs1)),
{
    assert(queues_model(qs0)[pos] == (qs0[pos].0, qs0[pos].1@));
    lemma_index_of_key(queues_model(qs0), k, pos);
    assert forall|x: int| 0 <= x < qs1.len() implies #[trigger] queues_model(qs1)[x] == upsert(
        queues_model(qs0),
        k,
        qs1[pos].1@,
    )[x] by {
        assert(queues_model(qs1)[x] == (qs1[x].0, qs1[x].1@));
        assert(queues_model(qs0)[x] == (qs0[x].0, qs0[x].1@));
    }
    assert(queues_model(qs1) =~~= upsert(queues_model(qs0), k, qs1[pos].1@));
    lemma_upsert_unique(queues_model(qs0), k, qs1[pos].1@);
}

/// Appending a queue entry under a fresh key is an upsert at model level.
proof fn lemma_queues_append(
    qs0: Seq<(Id, ValueCreationQueue)>,
    qs1: Seq<(Id, ValueCreationQueue)>,
    k: Id,
)
    requires
        keys_unique(queues_model(qs0)),
        forall|j: int| 0 <= j < qs0.len() ==> qs0[j].0 != k,
        qs1.len() == qs0.len() + 1,
        forall|x: int| 0 <= x < qs0.len() ==> qs1[x] == qs0[x],
        qs1[qs0.len() as int].0 == k,
    ensures
        !has_key(queues_model(qs0), k),
        queues_model(qs1) == upsert(queues_model(qs0), k, qs1[qs0.len() as int].1@),
        keys_unique(queues_model(qs1)),
{
    assert forall|j: int| 0 <= j < queues_model(qs0).len() implies queues_model(qs0)[j].0
        != k by {
        assert(queues_model(qs0)[j] == (qs0[j].0, qs0[j].1@));
    }
    assert forall|x: int| 0 <= x < qs1.len() implies #[trigger] queues_model(qs1)[x] == upsert(
        queues_model(qs0),
        k,
        qs1[qs0.len() as int].1@,
    )[x] by {
        assert(queues_model(qs1)[x] == (qs1[x].0, qs1[x].1@));
        if x < qs0.len() {
            assert(queues_model(qs0)[x] == (qs0[x].0, qs0[x].1@));
        }
    }
    assert(queues_model(qs1) =~~= upsert(queues_model(qs0), k, qs1[qs0.len() as int].1@));
    lemma_upsert_unique(queues_model(qs0), k, qs1[qs0.len() as int].1@);
}

/// Push the same notification for every channel of `subs` onto `out`, in
/// order.
#[verifier::loop_isolation(false)]
fn notify_each(subs: Vec<String>, n: Notification, out: &mut Vec<(String, Notification)>)
    ensures
        final(out).deep_view() == old(out).deep_view() + fanout_notifications(
            subs.deep_view(),
            n,
        ),
{
    let ghost start = out.deep_view();
    let ghost sm = subs.deep_view();
    let mut i: usize = 0;
    proof {
        assert(sm.take(0) =~~= Seq::<Seq<char>>::empty());
        assert(out.deep_view() =~~= start + fanout_notifications(sm.take(0), n));
    }
    while i < subs.len()
        invariant
            i <= subs@.len(),
            sm == subs.deep_view(),
            out.deep_view() == start + fanout_notifications(sm.take(i as int), n),
        decreases subs@.len() - i,
    {
        let ch = subs[i].clone();
        proof {
            assert(subs.deep_view()[i as int] == subs@[i as int]@);
            assert(sm[i as int] == ch@);
        }
        let ghost before = out.deep_view();
        out.push((ch, n));
        proof {
            assert(out.deep_view() =~~= before.push((sm[i as int], n)));
            let t = sm.take(i as int + 1);
            assert(t.drop_last() =~~= sm.take(i as int));
            assert(t.last() == sm[i as int]);
            assert(fanout_notifications(t, n) =~~= fanout_notifications(sm.take(i as int), n).push(
                (sm[i as int], n),
            ));
            assert(out.deep_view() =~~= start + fanout_notifications(t, n));
        }
        i = i + 1;
    }
    proof {
        assert(sm.take(sm.len() as int) =~~= sm);
    }
}

/// The coordinator's whole state: the change-set graph and one
/// value-creation queue per change set.
pub struct Coordinator {
    graph: ChangeSetGraph,
    queues: Vec<(Id, ValueCreationQueue)>,
}

impl View for Coordinator {
    type V = CoordModel;

    closed spec fn view(&self) -> CoordModel {
        CoordModel { graph: self.graph@, queues: queues_model(self.queues@) }
    }
}

impl Default for Coordinator {
    /// A coordinator with no change sets and no queues.
    fn default() -> (c: Self)
        ensures
            c@.graph == Seq::<(Id, crate::graph::CsModel)>::empty(),
            c@.queues == Seq::<(Id, QueueModel)>::empty(),
            coord_wf(c@),
    {
        let c = Coordinator { graph: ChangeSetGraph::default(), queues: Vec::new() };
        proof {
            assert(c@.queues =~~= Seq::<(Id, QueueModel)>::empty());
        }
        c
    }
}

impl Coordinator {
    /// Append `ProcessValue` notifications for every newly-ready node to
    /// `out`, claiming them in the graph.
    #[verifier::loop_isolation(false)]
    fn drain_into(&mut self, out: &mut Vec<(String, Notification)>)
        requires
            graph_wf(old(self).graph@),
        ensures
            final(self).graph@ == graph_claim_pass(old(self).graph@).0,
            graph_wf(final(self).graph@),
            final(self).queues == old(self).queues,
            final(out).deep_view() == old(out).deep_view() + process_value_notifications(
                graph_claim_pass(old(self).graph@).1,
            ),
    {
        let ghost start = out.deep_view();
        let ghost all = graph_claim_pass(self.graph@).1;
        let pairs = self.graph.fetch_all_available();
        let mut i: usize = 0;
        proof {
            assert(all.take(0) =~~= Seq::<(Seq<char>, Id)>::empty());
            assert(out.deep_view() =~~= start + process_value_notifications(all.take(0)));
        }
        while i < pairs.len()
            invariant
                i <= pairs@.len(),
                pairs.deep_view() == all,
                out.deep_view() == start + process_value_notifications(all.take(i as int)),
            decreases pairs@.len() - i,
        {
            let ch = pairs[i].0.clone();
            let nid = pairs[i].1;
            proof {
                assert(pairs.deep_view()[i as int] == (pairs@[i as int].0@, pairs@[i as int].1));
                assert(all[i as int] == (ch@, nid));
            }
            let ghost before = out.deep_view();
            out.push((ch, Notification::ProcessValue { node_id: nid }));
            proof {
                assert(out.deep_view() =~~= before.push(
                    (all[i as int].0, Notification::ProcessValue { node_id: nid }),
                ));
                let t = all.take(i as int + 1);
                assert(t.drop_last() =~~= all.take(i as int));
                assert(t.last() == all[i as int]);
                assert(process_value_notifications(t) =~~= process_value_notifications(
                    all.take(i as int),
                ).push((all[i as int].0, Notification::ProcessValue { node_id: nid })));
                assert(out.deep_view() =~~= start + process_value_notifications(t));
            }
            i = i + 1;
        }
        proof {
            assert(all.take(all.len() as int) =~~= all);
        }
    }

    /// Handle `Register`.
    #[verifier::loop_isolation(false)]
    fn do_register(&mut self, reply_channel: String, change_set_id: Id) -> (out: Vec<
        (String, Notification),
    >)
        requires
            coord_wf(old(self)@),
        ensures
            coord_wf(final(self)@),
            final(self)@ == coord_register(old(self)@, reply_channel@, change_set_id).0,
            out.deep_view() == coord_register(old(self)@, reply_channel@, change_set_id).1,
    {
        let ghost m0 = self@;
        let ghost qs0 = self.queues@;
        let found = find_queue_index(&self.queues, change_set_id);
        let pos: usize;
        let mut q: ValueCreationQueue;
        match found {
            Some(i) => {
                pos = i;
                let entry = self.queues.remove(i);
                q = entry.1;
            },
            None => {
                pos = self.queues.len();
                q = ValueCreationQueue::default();
            },
        }
        let ghost chv = reply_channel@;
        q.push(reply_channel);
        let next = q.fetch_next();
        self.queues.insert(pos, (change_set_id, q));
        let mut out: Vec<(String, Notification)> = Vec::new();
        proof {
            assert(out.deep_view() =~~= Seq::<(Seq<char>, Notification)>::empty());
        }
        if let Some(c) = next {
            let ghost cv = c@;
            out.push((c, Notification::Continue));
            proof {
                assert(out.deep_view() =~~= seq![(cv, Notification::Continue)]);
            }
        }
        proof {
            let qs1 = self.queues@;
            if found is Some {
                assert(qs1.len() == qs0.len());
                assert(forall|x: int| 0 <= x < qs0.len() && x != pos ==> qs1[x] == qs0[x]);
                assert(qs1[pos as int].0 == change_set_id);
                lemma_queues_update(qs0, qs1, pos as int, change_set_id);
            } else {
                assert(qs1.len() == qs0.len() + 1);
                assert(forall|x: int| 0 <= x < qs0.len() ==> qs1[x] == qs0[x]);
                assert(qs1[qs0.len() as int].0 == change_set_id);
                lemma_queues_append(qs0, qs1, change_set_id);
            }
        }
        out
    }

    /// Handle `GraphSubmitted`.
    #[verifier::loop_isolation(false)]
    fn do_graph_submitted(
        &mut self,
        reply_channel: String,
        change_set_id: Id,
        dependency_graph: DepGraph,
    ) -> (out: Vec<(String, Notification)>)
        requires
            coord_wf(old(self)@),
        ensures
            coord_wf(final(self)@),
            final(self)@ == coord_graph_submitted(
                old(self)@,
                reply_channel@,
                change_set_id,
                entries_model(dependency_graph@),
            ).0,
            out.deep_view() == coord_graph_submitted(
                old(self)@,
                reply_channel@,
                change_set_id,
                entries_model(dependency_graph@),
            ).1,
    {
        let ghost m0 = self@;
        let ghost qs0 = self.queues@;
        let empty_out: Vec<(String, Notification)> = Vec::new();
        proof {
            assert(empty_out.deep_view() =~~= Seq::<(Seq<char>, Notification)>::empty());
        }
        let pos = match find_queue_index(&self.queues, change_set_id) {
            Some(i) => i,
            None => {
                proof {
                    assert forall|j: int| 0 <= j < m0.queues.len() implies m0.queues[j].0
                        != change_set_id by {
                        assert(m0.queues[j] == (qs0[j].0, qs0[j].1@));
                    }
                }
                return empty_out;
            },
        };
        proof {
            assert(m0.queues[pos as int] == (qs0[pos as int].0, qs0[pos as int].1@));
            lemma_index_of_key(m0.queues, change_set_id, pos as int);
        }
        let entry = self.queues.remove(pos);
        let mut q = entry.1;
        match q.finished_processing(&reply_channel) {
            Err(_) => {
                self.queues.insert(pos, (change_set_id, q));
                proof {
                    assert forall|x: int| 0 <= x < self.queues@.len() implies queues_model(
                        self.queues@,
                    )[x] == m0.queues[x] by {
                        assert(queues_model(self.queues@)[x] == (
                            self.queues@[x].0,
                            self.queues@[x].1@,
                        ));
                        assert(m0.queues[x] == (qs0[x].0, qs0[x].1@));
                    }
                    assert(queues_model(self.queues@) =~~= m0.queues);
                    assert(self@ =~~= m0);
                }
                empty_out
            },
            Ok(_) => {
                let merged = self.graph.merge_dependency_graph(
                    reply_channel,
                    dependency_graph,
                    change_set_id,
                );
                proof {
                    assert(merged is Ok);
                }
                let next = q.fetch_next();
                self.queues.insert(pos, (change_set_id, q));
                let mut out: Vec<(String, Notification)> = Vec::new();
                proof {
                    assert(out.deep_view() =~~= Seq::<(Seq<char>, Notification)>::empty());
                }
                if let Some(c) = next {
                    let ghost cv = c@;
                    out.push((c, Notification::Continue));
                    proof {
                        assert(out.deep_view() =~~= seq![(cv, Notification::Continue)]);
                    }
                }
                proof {
                    let qs1 = self.queues@;
                    assert(qs1.len() == qs0.len());
                    assert(forall|x: int| 0 <= x < qs0.len() && x != pos ==> qs1[x] == qs0[x]);
                    assert(qs1[pos as int].0 == change_set_id);
                    lemma_queues_update(qs0, qs1, pos as int, change_set_id);
                }
                self.drain_into(&mut out);
                out
            },
        }
    }

    /// Handle `ValueProcessed`.
    fn do_value_processed(&mut self, reply_channel: String, change_set_id: Id, node_id: Id) -> (out:
        Vec<(String, Notification)>)
        requires
            coord_wf(old(self)@),
        ensures
            coord_wf(final(self)@),
            final(self)@ == coord_value_processed(
                old(self)@,
                reply_channel@,
                change_set_id,
                node_id,
            ).0,
            out.deep_view() == coord_value_processed(
                old(self)@,
                reply_channel@,
                change_set_id,
                node_id,
            ).1,
    {
        let mut out: Vec<(String, Notification)> = Vec::new();
        proof {
            assert(out.deep_view() =~~= Seq::<(Seq<char>, Notification)>::empty());
        }
        match self.graph.mark_node_as_processed(reply_channel, change_set_id, node_id) {
            Ok(subs) => {
                notify_each(subs, Notification::ValueAvailable { node_id }, &mut out);
            },
            Err(_) => {},
        }
        self.drain_into(&mut out);
        out
    }

    /// Handle `ValueProcessingFailed`.
    fn do_value_failed(&mut self, change_set_id: Id, node_id: Id) -> (out: Vec<
        (String, Notification),
    >)
        requires
            coord_wf(old(self)@),
        ensures
            coord_wf(final(self)@),
            final(self)@ == coord_value_failed(old(self)@, change_set_id, node_id).0,
            out.deep_view() == coord_value_failed(old(self)@, change_set_id, node_id).1,
    {
        let mut out: Vec<(String, Notification)> = Vec::new();
        proof {
            assert(out.deep_view() =~~= Seq::<(Seq<char>, Notification)>::empty());
        }
        let subs = self.graph.fail_node(change_set_id, node_id);
        notify_each(subs, Notification::ValueProcessingFailed { node_id }, &mut out);
        self.drain_into(&mut out);
        out
    }

    /// Handle `Cancel` (explicit, or synthesized on worker disconnect).
    #[verifier::loop_isolation(false)]
    fn do_cancel(&mut self, reply_channel: String, change_set_id: Id) -> (out: Vec<
        (String, Notification),
    >)
        requires
            coord_wf(old(self)@),
        ensures
            coord_wf(final(self)@),
            final(self)@ == coord_cancel(old(self)@, reply_channel@, change_set_id).0,
            out.deep_view() == coord_cancel(old(self)@, reply_channel@, change_set_id).1,
    {
        let ghost m0 = self@;
        let ghost qs0 = self.queues@;
        self.graph.remove_channel(change_set_id, &reply_channel);
        let mut out: Vec<(String, Notification)> = Vec::new();
        proof {
            assert(out.deep_view() =~~= Seq::<(Seq<char>, Notification)>::empty());
        }
        match find_queue_index(&self.queues, change_set_id) {
            Some(pos) => {
                proof {
                    assert(m0.queues[pos as int] == (qs0[pos as int].0, qs0[pos as int].1@));
                    lemma_index_of_key(m0.queues, change_set_id, pos as int);
                }
                let entry = self.queues.remove(pos);
                let mut q = entry.1;
                q.remove(&reply_channel);
                let next = q.fetch_next();
                self.queues.insert(pos, (change_set_id, q));
                if let Some(c) = next {
                    let ghost cv = c@;
                    out.push((c, Notification::Continue));
                    proof {
                        assert(out.deep_view() =~~= seq![(cv, Notification::Continue)]);
                    }
                }
                proof {
                    let qs1 = self.queues@;
                    assert(qs1.len() == qs0.len());
                    assert(forall|x: int| 0 <= x < qs0.len() && x != pos ==> qs1[x] == qs0[x]);
                    assert(qs1[pos as int].0 == change_set_id);
                    lemma_queues_update(qs0, qs1, pos as int, change_set_id);
                }
            },
            None => {
                proof {
                    assert forall|j: int| 0 <= j < m0.queues.len() implies m0.queues[j].0
                        != change_set_id by {
                        assert(m0.queues[j] == (qs0[j].0, qs0[j].1@));
                    }
                }
            },
        }
        self.drain_into(&mut out);
        out
    }

    /// Handle one inbound request: perform its bounded mutation and
    /// return the notifications to publish, in order.
    pub fn handle_request(&mut self, request: Request) -> (out: Vec<(String, Notification)>)
        requires
            coord_wf(old(self)@),
        ensures
            coord_wf(final(self)@),
            final(self)@ == coord_step(old(self)@, request).0,
            out.deep_view() == coord_step(old(self)@, request).1,
    {
        match request {
            Request::Register { reply_channel, change_set_id } => self.do_register(
                reply_channel,
                change_set_id,
            ),
            Request::GraphSubmitted { reply_channel, change_set_id, dependency_graph } => self
                .do_graph_submitted(reply_channel, change_set_id, dependency_graph),
            Request::ValueProcessed { reply_channel, change_set_id, node_id } => self
                .do_value_processed(reply_channel, change_set_id, node_id),
            Request::ValueProcessingFailed { reply_channel: _, change_set_id, node_id } => self
                .do_value_failed(change_set_id, node_id),
            Request::Cancel { reply_channel, change_set_id } => self.do_cancel(
                reply_channel,
                change_set_id,
            ),
        }
    }

    /// Whether no change set is live in the graph.
    pub fn graph_is_empty(&self) -> (r: bool)
        ensures
            r == (self@.graph.len() == 0),
    {
        self.graph.is_empty()
    }
}

} // verus!
