//! Laws of the coordinator.
//!
//! Each proof function here states one guarantee of the library over the
//! models and transition functions that the executable code is verified
//! against, so the guarantees hold of every run of the code.

use vstd::prelude::*;

use crate::graph::{
    empty_node, graph_fail, graph_mark_processed, graph_wf, has_key, index_of_key, keys_unique,
    lemma_index_of_key, lookup, GraphModel,
};
use crate::node::{
    add_new_ids, node_claim, node_merge, node_remove_channel, node_remove_dep, NodeModel,
};
use crate::queue::{empty_queue, queue_fetch, queue_finish, queue_push, QueueModel};
use crate::{remove_all, Error, Id};

verus! {

/// Removing one value from a sequence keeps every other value.
pub proof fn lemma_remove_all_keeps<A>(s: Seq<A>, x: A, y: A)
    requires
        y != x,
    ensures
        remove_all(s, x).contains(y) == s.contains(y),
    decreases s.len(),
{
    if s.len() > 0 {
        lemma_remove_all_keeps(s.drop_last(), x, y);
        let out = remove_all(s, x);
        let prev = remove_all(s.drop_last(), x);
        assert(s.contains(y) <==> s.drop_last().contains(y) || s.last() == y) by {
            if s.contains(y) {
                let i = choose|i: int| 0 <= i < s.len() && s[i] == y;
                if i < s.len() - 1 {
                    assert(s.drop_last()[i] == y);
                }
            }
            if s.drop_last().contains(y) {
                let i = choose|i: int| 0 <= i < s.drop_last().len() && s.drop_last()[i] == y;
                assert(s[i] == y);
            }
            if s.last() == y {
                assert(s[s.len() - 1] == y);
            }
        }
        if s.last() == x {
            assert(out == prev);
        } else {
            assert(out == prev.push(s.last()));
            assert(prev.contains(y) ==> out.contains(y)) by {
                if prev.contains(y) {
                    let i = choose|i: int| 0 <= i < prev.len() && prev[i] == y;
                    assert(out[i] == y);
                }
            }
            assert(out.contains(y) ==> prev.contains(y) || s.last() == y) by {
                if out.contains(y) {
                    let i = choose|i: int| 0 <= i < out.len() && out[i] == y;
                    if i < out.len() - 1 {
                        assert(prev[i] == y);
                    }
                }
            }
            assert(out[out.len() - 1] == s.last());
        }
    }
}

/// Single processor: the `processing` slot holds at most one channel, so
/// two channels recorded as processing the same node are the same
/// channel.
pub proof fn lemma_single_processor(m: NodeModel, ch1: Seq<char>, ch2: Seq<char>)
    requires
        m.processing == Some(ch1),
        m.processing == Some(ch2),
    ensures
        ch1 == ch2,
{
}

/// A node's processor may be set only while it has no outstanding
/// dependencies.
pub open spec fn claimed_only_when_ready(m: NodeModel) -> bool {
    m.processing is Some ==> m.depends_on.len() == 0
}

/// No premature claim, at the claim itself: a claim succeeds only on a
/// node whose dependencies are all resolved, and leaves the node in a
/// state where the processor is set and the dependency set is empty.
pub proof fn lemma_no_premature_claim(m: NodeModel)
    ensures
        node_claim(m).1 is Some ==> m.depends_on.len() == 0,
        claimed_only_when_ready(m) ==> claimed_only_when_ready(node_claim(m).0),
{
}

/// No premature claim, across the other node transitions: resolving a
/// dependency or removing a channel preserves it, and so does a merge,
/// provided the merge brings no new dependency to a node that is already
/// being processed.  (A merge that adds a fresh dependency to a claimed
/// node is the one transition that can break the property.)
pub proof fn lemma_no_premature_claim_preserved(
    m: NodeModel,
    ch: Seq<char>,
    deps: Seq<Id>,
    dep: Id,
)
    requires
        claimed_only_when_ready(m),
        m.processing is Some ==> add_new_ids(m.depends_on, deps) == m.depends_on,
    ensures
        claimed_only_when_ready(node_merge(m, ch, deps)),
        claimed_only_when_ready(node_remove_dep(m, dep)),
        claimed_only_when_ready(node_remove_channel(m, ch)),
{
}

/// Exactly-one processor notification: once a claim succeeds, further
/// claim attempts on the node yield nothing, until completion or failure
/// clears the processing slot again.
pub proof fn lemma_single_claim(m: NodeModel)
    requires
        node_claim(m).1 is Some,
    ensures
        node_claim(node_claim(m).0).1 is None,
{
}

/// A fresh node after a sequence of `merge` calls, applied oldest first.
pub open spec fn merge_fold(m: NodeModel, reqs: Seq<(Seq<char>, Seq<Id>)>) -> NodeModel
    decreases reqs.len(),
{
    if reqs.len() == 0 {
        m
    } else {
        node_merge(merge_fold(m, reqs.drop_last()), reqs.last().0, reqs.last().1)
    }
}

/// Merging never disturbs the head of the interest line.
pub proof fn lemma_merge_fold_head(reqs: Seq<(Seq<char>, Seq<Id>)>)
    requires
        reqs.len() > 0,
    ensures
        merge_fold(empty_node(), reqs).wanted_by.len() > 0,
        merge_fold(empty_node(), reqs).wanted_by.first() == reqs.first().0,
    decreases reqs.len(),
{
    let m = merge_fold(empty_node(), reqs);
    if reqs.len() == 1 {
        assert(m.wanted_by == Seq::<Seq<char>>::empty().push(reqs.last().0));
        assert(m.wanted_by.first() == reqs.first().0);
    } else {
        lemma_merge_fold_head(reqs.drop_last());
        let prev = merge_fold(empty_node(), reqs.drop_last());
        assert(reqs.drop_last().first() == reqs.first());
        if !prev.wanted_by.contains(reqs.last().0) {
            assert(m.wanted_by.first() == prev.wanted_by.first());
        }
    }
}

/// FIFO per node: however a fresh node's interest was built up by
/// merges, a successful first claim hands the node to the first channel
/// that merged into it.
pub proof fn lemma_fifo_per_node(reqs: Seq<(Seq<char>, Seq<Id>)>)
    requires
        reqs.len() > 0,
    ensures
        ({
            let m = merge_fold(empty_node(), reqs);
            node_claim(m).1 is Some ==> node_claim(m).1 == Some(reqs.first().0)
        }),
{
    lemma_merge_fold_head(reqs);
}

/// Merging registers the channel: afterwards it is among the node's
/// subscribers.
pub proof fn lemma_merge_registers(m: NodeModel, ch: Seq<char>, deps: Seq<Id>)
    ensures
        node_merge(m, ch, deps).wanted_by.contains(ch),
{
    let out = node_merge(m, ch, deps).wanted_by;
    if !m.wanted_by.contains(ch) {
        assert(out[out.len() - 1] == ch);
    }
}

/// Subscriber completeness at completion: when a node completes, every
/// channel other than the processor that was subscribed to it is in the
/// returned secondary-subscriber list, and so receives `ValueAvailable`.
pub proof fn lemma_subscriber_completeness(
    g: GraphModel,
    ch: Seq<char>,
    csid: Id,
    nid: Id,
    sub: Seq<char>,
)
    requires
        has_key(g, csid),
        has_key(lookup(g, csid), nid),
        lookup(lookup(g, csid), nid).processing == Some(ch),
        lookup(lookup(g, csid), nid).depends_on.len() == 0,
        lookup(lookup(g, csid), nid).wanted_by.contains(sub),
        sub != ch,
    ensures
        graph_mark_processed(g, ch, csid, nid).1 is Ok,
        (match graph_mark_processed(g, ch, csid, nid).1 {
            Ok(subs) => subs.contains(sub),
            Err(_) => false,
        }),
{
    let nm = lookup(lookup(g, csid), nid);
    lemma_remove_all_keeps(nm.wanted_by, ch, sub);
    assert(graph_mark_processed(g, ch, csid, nid).1 == Ok::<Seq<Seq<char>>, Error>(
        node_remove_channel(nm, ch).wanted_by,
    ));
}

/// Subscriber completeness at failure: the processor of a failed node
/// and every channel subscribed to it are in the returned notification
/// list, and so receive `ValueProcessingFailed`.
pub proof fn lemma_failure_notifies(g: GraphModel, csid: Id, nid: Id, sub: Seq<char>)
    requires
        has_key(g, csid),
        has_key(lookup(g, csid), nid),
        lookup(lookup(g, csid), nid).wanted_by.contains(sub) || lookup(
            lookup(g, csid),
            nid,
        ).processing == Some(sub),
    ensures
        graph_fail(g, csid, nid).1.contains(sub),
{
    let nm = lookup(lookup(g, csid), nid);
    let reply = graph_fail(g, csid, nid).1;
    match nm.processing {
        Some(p) => {
            assert(reply == seq![p] + nm.wanted_by);
            if p == sub {
                assert(reply[0] == sub);
            } else {
                let i = choose|i: int| 0 <= i < nm.wanted_by.len() && nm.wanted_by[i] == sub;
                assert(reply[i + 1] == sub);
            }
        },
        None => {
            assert(reply == nm.wanted_by);
        },
    }
}

/// Termination measure: completing a node with no outstanding
/// dependencies strictly shrinks its change set, and the change set
/// disappears with its last node.  A run in which every `ProcessValue`
/// is answered by `ValueProcessed` therefore reaches the empty graph.
pub proof fn lemma_completion_decreases(g: GraphModel, ch: Seq<char>, csid: Id, nid: Id)
    requires
        graph_wf(g),
        has_key(g, csid),
        has_key(lookup(g, csid), nid),
        lookup(lookup(g, csid), nid).processing == Some(ch),
        lookup(lookup(g, csid), nid).depends_on.len() == 0,
    ensures
        graph_mark_processed(g, ch, csid, nid).1 is Ok,
        lookup(g, csid).len() == 1 ==> !has_key(graph_mark_processed(g, ch, csid, nid).0, csid),
        lookup(g, csid).len() > 1 ==> has_key(graph_mark_processed(g, ch, csid, nid).0, csid)
            && lookup(graph_mark_processed(g, ch, csid, nid).0, csid).len() == lookup(
            g,
            csid,
        ).len() - 1,
{
    let cs = lookup(g, csid);
    let cpos = index_of_key(g, csid);
    let npos = index_of_key(cs, nid);
    assert(0 <= cpos < g.len() && g[cpos].0 == csid);
    assert(0 <= npos < cs.len() && cs[npos].0 == nid);
    let cs2 = crate::graph::cs_after_complete(cs, nid);
    assert(cs2.len() == cs.len() - 1);
    let g2 = graph_mark_processed(g, ch, csid, nid).0;
    if cs.len() == 1 {
        assert(g2 == g.remove(cpos));
        assert forall|w: int| 0 <= w < g2.len() implies g2[w].0 != csid by {
            if w < cpos {
                assert(g2[w] == g[w]);
            } else {
                assert(g2[w] == g[w + 1]);
            }
        }
    } else {
        assert(g2 == g.update(cpos, (csid, cs2)));
        assert(g2[cpos].0 == csid);
        assert(keys_unique(g2));
        lemma_index_of_key(g2, csid, cpos);
    }
}

/// Cleanup: after a change set's last node completes, the change-set
/// entry is absent from the graph.
pub proof fn lemma_cleanup(g: GraphModel, ch: Seq<char>, csid: Id, nid: Id)
    requires
        graph_wf(g),
        has_key(g, csid),
        lookup(g, csid).len() == 1,
        has_key(lookup(g, csid), nid),
        lookup(lookup(g, csid), nid).processing == Some(ch),
        lookup(lookup(g, csid), nid).depends_on.len() == 0,
    ensures
        !has_key(graph_mark_processed(g, ch, csid, nid).0, csid),
{
    lemma_completion_decreases(g, ch, csid, nid);
}

/// A queue after a batch of pushes, oldest first.
pub open spec fn push_all(m: QueueModel, chs: Seq<Seq<char>>) -> QueueModel
    decreases chs.len(),
{
    if chs.len() == 0 {
        m
    } else {
        queue_push(push_all(m, chs.drop_last()), chs.last())
    }
}

/// The channels handed out by repeatedly fetching the slot and releasing
/// it again, at most `n` times.
pub open spec fn drain_order(m: QueueModel, n: nat) -> Seq<Seq<char>>
    decreases n,
{
    if n == 0 {
        Seq::<Seq<char>>::empty()
    } else {
        let fetched = queue_fetch(m);
        match fetched.1 {
            Some(c) => seq![c] + drain_order(queue_finish(fetched.0, c).0, (n - 1) as nat),
            None => Seq::<Seq<char>>::empty(),
        }
    }
}

/// Pushing a batch extends the waiting line in order.
pub proof fn lemma_push_all(m: QueueModel, chs: Seq<Seq<char>>)
    ensures
        push_all(m, chs).processing == m.processing,
        push_all(m, chs).pending == m.pending + chs,
    decreases chs.len(),
{
    if chs.len() == 0 {
        assert(m.pending + chs =~= m.pending);
    } else {
        lemma_push_all(m, chs.drop_last());
        assert((m.pending + chs.drop_last()).push(chs.last()) =~= m.pending + chs);
    }
}

/// Draining an idle queue yields its waiting line in order.
pub proof fn lemma_drain_order(m: QueueModel)
    requires
        m.processing is None,
    ensures
        drain_order(m, m.pending.len()) == m.pending,
    decreases m.pending.len(),
{
    if m.pending.len() > 0 {
        let fetched = queue_fetch(m);
        let c = m.pending.first();
        let released = queue_finish(fetched.0, c).0;
        assert(released.processing is None);
        assert(released.pending == m.pending.drop_first());
        lemma_drain_order(released);
        assert(seq![c] + m.pending.drop_first() =~= m.pending);
    }
}

/// Round trip of the value-creation queue: for any batch of pushes into
/// an idle empty queue, repeatedly fetching the slot and releasing it
/// hands out the channels in push order.
pub proof fn lemma_queue_round_trip(chs: Seq<Seq<char>>)
    ensures
        drain_order(push_all(empty_queue(), chs), chs.len()) == chs,
{
    lemma_push_all(empty_queue(), chs);
    let m = push_all(empty_queue(), chs);
    assert(m.pending =~= chs);
    lemma_drain_order(m);
}

} // verus!
