//! The change-set graph.
//!
//! One `ChangeSetGraph` holds, for every live change set, the metadata of
//! every node that some worker has mentioned — either declared outright or
//! named as a dependency.  It is the coordinator's single source of truth
//! for deciding which nodes may be computed next.
//!
//! Change sets and nodes are stored as association vectors with unique
//! keys, in first-mention order; their mathematical model is the sequence
//! of key/state pairs.

use vstd::prelude::*;

use crate::node::{
    contains_id, node_claim, node_is_empty, node_merge, node_remove_channel, node_remove_dep,
    node_waits_on_any, NodeMetadata, NodeModel,
};
use crate::{DepGraph, Error, Id};

verus! {

/// Model of one change set: its nodes' states, keyed by node id, in
/// first-mention order.
pub type CsModel = Seq<(Id, NodeModel)>;

/// Model of the whole graph: one entry per live change set.
pub type GraphModel = Seq<(Id, CsModel)>;

/// Whether the association sequence holds an entry for `k`.
pub open spec fn has_key<T>(s: Seq<(Id, T)>, k: Id) -> bool {
    exists|i: int| 0 <= i < s.len() && s[i].0 == k
}

/// The index of `k`'s entry (meaningful only when `has_key` holds and the
/// keys are unique).
pub open spec fn index_of_key<T>(s: Seq<(Id, T)>, k: Id) -> int {
    choose|i: int| 0 <= i < s.len() && s[i].0 == k
}

/// The value stored under `k`.
pub open spec fn lookup<T>(s: Seq<(Id, T)>, k: Id) -> T {
    s[index_of_key(s, k)].1
}

/// No key occurs twice.
pub open spec fn keys_unique<T>(s: Seq<(Id, T)>) -> bool {
    forall|i: int, j: int| 0 <= i < j < s.len() ==> s[i].0 != s[j].0
}

/// With unique keys, any witness index for `k` is the index `index_of_key`
/// denotes.
pub proof fn lemma_index_of_key<T>(s: Seq<(Id, T)>, k: Id, i: int)
    requires
        keys_unique(s),
        0 <= i < s.len(),
        s[i].0 == k,
    ensures
        has_key(s, k),
        index_of_key(s, k) == i,
{
    assert(has_key(s, k));
    let j = index_of_key(s, k);
    assert(0 <= j < s.len() && s[j].0 == k);
    if i < j {
        assert(s[i].0 != s[j].0);
    } else if j < i {
        assert(s[j].0 != s[i].0);
    }
}

/// The association sequence with `k`'s entry set to `v`: updated in
/// place when present, appended otherwise.
pub open spec fn upsert<T>(s: Seq<(Id, T)>, k: Id, v: T) -> Seq<(Id, T)> {
    if has_key(s, k) {
        s.update(index_of_key(s, k), (k, v))
    } else {
        s.push((k, v))
    }
}

/// Upserting keeps keys unique.
pub proof fn lemma_upsert_unique<T>(s: Seq<(Id, T)>, k: Id, v: T)
    requires
        keys_unique(s),
    ensures
        keys_unique(upsert(s, k, v)),
{
    let out = upsert(s, k, v);
    if has_key(s, k) {
        let i = index_of_key(s, k);
        assert(0 <= i < s.len() && s[i].0 == k);
    } else {
        assert forall|x: int, y: int| 0 <= x < y < out.len() implies out[x].0 != out[y].0 by {
            if y == out.len() - 1 {
                if out[x].0 == k {
                    assert(has_key(s, k));
                }
            }
        }
    }
}

/// A node that has just been mentioned for the first time.
pub open spec fn empty_node() -> NodeModel {
    NodeModel {
        wanted_by: Seq::<Seq<char>>::empty(),
        processing: Option::<Seq<char>>::None,
        depends_on: Seq::<Id>::empty(),
    }
}

/// Both levels of the graph are keyed uniquely.
pub open spec fn graph_wf(g: GraphModel) -> bool {
    &&& keys_unique(g)
    &&& forall|i: int| 0 <= i < g.len() ==> keys_unique(#[trigger] g[i].1)
}

/// One change set after `ch` withdraws: every node forgets the channel,
/// and nodes left with no subscriber and no processor are dropped.
pub open spec fn cs_remove_channel(cs: CsModel, ch: Seq<char>) -> CsModel
    decreases cs.len(),
{
    if cs.len() == 0 {
        cs
    } else {
        let prev = cs_remove_channel(cs.drop_last(), ch);
        let nm = node_remove_channel(cs.last().1, ch);
        if node_is_empty(nm) {
            prev
        } else {
            prev.push((cs.last().0, nm))
        }
    }
}

/// The graph after `ch` withdraws from change set `csid`.  The change-set
/// entry itself stays, even when emptied: only normal completion removes
/// it.
pub open spec fn graph_remove_channel(g: GraphModel, csid: Id, ch: Seq<char>) -> GraphModel {
    if has_key(g, csid) {
        g.update(index_of_key(g, csid), (csid, cs_remove_channel(lookup(g, csid), ch)))
    } else {
        g
    }
}

/// Removing a channel keeps the key structure: the surviving entries are
/// a subsequence of the old ones, so unique keys stay unique.
pub proof fn lemma_cs_remove_channel_wf(cs: CsModel, ch: Seq<char>)
    requires
        keys_unique(cs),
    ensures
        keys_unique(cs_remove_channel(cs, ch)),
        forall|k: Id| has_key(#[trigger] cs_remove_channel(cs, ch), k) ==> has_key(cs, k),
    decreases cs.len(),
{
    if cs.len() > 0 {
        let prev = cs_remove_channel(cs.drop_last(), ch);
        lemma_cs_remove_channel_wf(cs.drop_last(), ch);
        assert forall|k: Id| has_key(prev, k) implies has_key(cs, k) by {
            let i = choose|i: int| 0 <= i < prev.len() && prev[i].0 == k;
            assert(has_key(cs.drop_last(), k));
            let j = choose|j: int| 0 <= j < cs.drop_last().len() && cs.drop_last()[j].0 == k;
            assert(cs[j].0 == k);
        }
        let nm = node_remove_channel(cs.last().1, ch);
        if !node_is_empty(nm) {
            let out = prev.push((cs.last().0, nm));
            assert forall|i: int, j: int| 0 <= i < j < out.len() implies out[i].0 != out[j].0 by {
                if j == out.len() - 1 {
                    if out[i].0 == cs.last().0 {
                        assert(has_key(prev, cs.last().0));
                        assert(has_key(cs.drop_last(), cs.last().0));
                        let w = choose|w: int|
                            0 <= w < cs.drop_last().len() && cs.drop_last()[w].0 == cs.last().0;
                        assert(cs[w].0 == cs[cs.len() - 1].0);
                    }
                }
            }
        }
    }
}

/// One change set after channel `ch` registers interest in node `nid`
/// with dependencies `deps`: the node is updated in place, or appended in
/// first-mention order if new.
pub open spec fn cs_merge_entry(cs: CsModel, ch: Seq<char>, nid: Id, deps: Seq<Id>) -> CsModel {
    if has_key(cs, nid) {
        cs.update(
            index_of_key(cs, nid),
            (nid, node_merge(cs[index_of_key(cs, nid)].1, ch, deps)),
        )
    } else {
        cs.push((nid, node_merge(empty_node(), ch, deps)))
    }
}

/// The same change set after each id of `deps` is additionally registered
/// as a node of interest with no dependencies of its own, so that
/// dependency nodes are tracked even when never explicitly declared.
pub open spec fn cs_merge_deps(cs: CsModel, ch: Seq<char>, deps: Seq<Id>) -> CsModel
    decreases deps.len(),
{
    if deps.len() == 0 {
        cs
    } else {
        cs_merge_entry(
            cs_merge_deps(cs, ch, deps.drop_last()),
            ch,
            deps.last(),
            Seq::<Id>::empty(),
        )
    }
}

/// One change set after a whole submitted dependency graph is merged,
/// entry by entry in submission order.
pub open spec fn cs_merge_graph(cs: CsModel, ch: Seq<char>, entries: Seq<(Id, Seq<Id>)>) -> CsModel
    decreases entries.len(),
{
    if entries.len() == 0 {
        cs
    } else {
        let prev = cs_merge_graph(cs, ch, entries.drop_last());
        let e = entries.last();
        cs_merge_deps(cs_merge_entry(prev, ch, e.0, e.1), ch, e.1)
    }
}

/// The graph after channel `ch` submits `entries` for change set `csid`.
pub open spec fn graph_merge(
    g: GraphModel,
    ch: Seq<char>,
    entries: Seq<(Id, Seq<Id>)>,
    csid: Id,
) -> GraphModel {
    if has_key(g, csid) {
        g.update(index_of_key(g, csid), (csid, cs_merge_graph(lookup(g, csid), ch, entries)))
    } else {
        g.push((csid, cs_merge_graph(Seq::<(Id, NodeModel)>::empty(), ch, entries)))
    }
}

/// One change set after completed node `nid` is gone: its entry is
/// removed and every remaining node stops waiting on it.
pub open spec fn cs_after_complete(cs: CsModel, nid: Id) -> CsModel {
    cs.remove(index_of_key(cs, nid)).map_values(
        |p: (Id, NodeModel)| (p.0, node_remove_dep(p.1, nid)),
    )
}

/// The graph and the reply of `mark_node_as_processed`.  An error leaves
/// the graph unchanged; on completion the change set shrinks by the node
/// (and disappears entirely with its last node), and the secondary
/// subscribers still wanting the node are returned.
pub open spec fn graph_mark_processed(g: GraphModel, ch: Seq<char>, csid: Id, nid: Id) -> (
    GraphModel,
    Result<Seq<Seq<char>>, Error>,
) {
    if !has_key(g, csid) {
        (g, Err(Error::UnknownNodeId))
    } else {
        let cs = lookup(g, csid);
        if !has_key(cs, nid) {
            (g, Err(Error::UnknownNodeId))
        } else {
            let nm = lookup(cs, nid);
            if nm.processing != Some(ch) {
                (g, Err(Error::ShouldNotBeProcessingByJob))
            } else {
                let nm2 = node_remove_channel(nm, ch);
                if nm.depends_on.len() == 0 {
                    let cs2 = cs_after_complete(cs, nid);
                    let g2 = if cs2.len() == 0 {
                        g.remove(index_of_key(g, csid))
                    } else {
                        g.update(index_of_key(g, csid), (csid, cs2))
                    };
                    (g2, Ok(nm2.wanted_by))
                } else {
                    (
                        g.update(
                            index_of_key(g, csid),
                            (csid, cs.update(index_of_key(cs, nid), (nid, nm2))),
                        ),
                        Ok(Seq::<Seq<char>>::empty()),
                    )
                }
            }
        }
    }
}

/// One claim pass over a change set: every node is offered to
/// `node_claim` in storage order, and the claimed (channel, node) pairs
/// come out in that order.
pub open spec fn cs_claim_pass(cs: CsModel) -> (CsModel, Seq<(Seq<char>, Id)>)
    decreases cs.len(),
{
    if cs.len() == 0 {
        (cs, Seq::<(Seq<char>, Id)>::empty())
    } else {
        let prev = cs_claim_pass(cs.drop_last());
        let c = node_claim(cs.last().1);
        let cs2 = prev.0.push((cs.last().0, c.0));
        match c.1 {
            Some(ch) => (cs2, prev.1.push((ch, cs.last().0))),
            None => (cs2, prev.1),
        }
    }
}

/// One claim pass over the whole graph, change set by change set.  No
/// order is promised between change sets beyond storage order; within one
/// node, FIFO order of `wanted_by` decides who is claimed.
pub open spec fn graph_claim_pass(g: GraphModel) -> (GraphModel, Seq<(Seq<char>, Id)>)
    decreases g.len(),
{
    if g.len() == 0 {
        (g, Seq::<(Seq<char>, Id)>::empty())
    } else {
        let prev = graph_claim_pass(g.drop_last());
        let c = cs_claim_pass(g.last().1);
        (prev.0.push((g.last().0, c.0)), prev.1 + c.1)
    }
}

/// A claim pass touches only node states, never the key structure.
pub proof fn lemma_cs_claim_pass_shape(cs: CsModel)
    ensures
        cs_claim_pass(cs).0.len() == cs.len(),
        forall|i: int| 0 <= i < cs.len() ==> #[trigger] cs_claim_pass(cs).0[i].0 == cs[i].0,
    decreases cs.len(),
{
    if cs.len() > 0 {
        lemma_cs_claim_pass_shape(cs.drop_last());
        assert forall|i: int| 0 <= i < cs.len() implies #[trigger] cs_claim_pass(cs).0[i].0
            == cs[i].0 by {
            if i < cs.len() - 1 {
                assert(cs_claim_pass(cs.drop_last()).0[i].0 == cs.drop_last()[i].0);
            }
        }
    }
}

/// A claim pass over the graph touches only node states, never the key
/// structure at either level.
pub proof fn lemma_graph_claim_pass_shape(g: GraphModel)
    ensures
        graph_claim_pass(g).0.len() == g.len(),
        forall|i: int| 0 <= i < g.len() ==> #[trigger] graph_claim_pass(g).0[i].0 == g[i].0,
        forall|i: int|
            0 <= i < g.len() ==> #[trigger] graph_claim_pass(g).0[i].1 == cs_claim_pass(g[i].1).0,
    decreases g.len(),
{
    if g.len() > 0 {
        lemma_graph_claim_pass_shape(g.drop_last());
        assert forall|i: int| 0 <= i < g.len() implies #[trigger] graph_claim_pass(g).0[i].0
            == g[i].0 by {
            if i < g.len() - 1 {
                assert(graph_claim_pass(g.drop_last()).0[i].0 == g.drop_last()[i].0);
            }
        }
        assert forall|i: int| 0 <= i < g.len() implies #[trigger] graph_claim_pass(g).0[i].1
            == cs_claim_pass(g[i].1).0 by {
            if i < g.len() - 1 {
                assert(graph_claim_pass(g.drop_last()).0[i].1 == cs_claim_pass(
                    g.drop_last()[i].1,
                ).0);
            }
        }
    }
}

/// One marking pass over a change set: scanned in storage order, a node
/// that waits on anything already doomed has its id appended.
pub open spec fn doom_pass(cs: CsModel, doomed: Seq<Id>) -> Seq<Id>
    decreases cs.len(),
{
    if cs.len() == 0 {
        doomed
    } else {
        let prev = doom_pass(cs.drop_last(), doomed);
        if !prev.contains(cs.last().0) && node_waits_on_any(cs.last().1, prev) {
            prev.push(cs.last().0)
        } else {
            prev
        }
    }
}

/// `n` marking passes.  With as many passes as there are nodes, the list
/// has reached every transitive dependent of the seed.
pub open spec fn doom_iter(cs: CsModel, doomed: Seq<Id>, n: nat) -> Seq<Id>
    decreases n,
{
    if n == 0 {
        doomed
    } else {
        doom_pass(cs, doom_iter(cs, doomed, (n - 1) as nat))
    }
}

/// The change set without the entries whose key is doomed.
pub open spec fn cs_drop_doomed(cs: CsModel, doomed: Seq<Id>) -> CsModel
    decreases cs.len(),
{
    if cs.len() == 0 {
        cs
    } else {
        let prev = cs_drop_doomed(cs.drop_last(), doomed);
        if doomed.contains(cs.last().0) {
            prev
        } else {
            prev.push(cs.last())
        }
    }
}

/// Dropping doomed entries keeps the surviving keys unique.
pub proof fn lemma_cs_drop_doomed_wf(cs: CsModel, doomed: Seq<Id>)
    requires
        keys_unique(cs),
    ensures
        keys_unique(cs_drop_doomed(cs, doomed)),
        forall|k: Id| has_key(#[trigger] cs_drop_doomed(cs, doomed), k) ==> has_key(cs, k),
    decreases cs.len(),
{
    if cs.len() > 0 {
        let prev = cs_drop_doomed(cs.drop_last(), doomed);
        lemma_cs_drop_doomed_wf(cs.drop_last(), doomed);
        assert forall|k: Id| has_key(prev, k) implies has_key(cs, k) by {
            let i = choose|i: int| 0 <= i < prev.len() && prev[i].0 == k;
            assert(has_key(cs.drop_last(), k));
            let j = choose|j: int| 0 <= j < cs.drop_last().len() && cs.drop_last()[j].0 == k;
            assert(cs[j].0 == k);
        }
        if !doomed.contains(cs.last().0) {
            let out = prev.push(cs.last());
            assert forall|i: int, j: int| 0 <= i < j < out.len() implies out[i].0 != out[j].0 by {
                if j == out.len() - 1 {
                    if out[i].0 == cs.last().0 {
                        assert(has_key(prev, cs.last().0));
                        assert(has_key(cs.drop_last(), cs.last().0));
                        let w = choose|w: int|
                            0 <= w < cs.drop_last().len() && cs.drop_last()[w].0 == cs.last().0;
                        assert(cs[w].0 == cs[cs.len() - 1].0);
                    }
                }
            }
        }
    }
}

/// The graph and the notification list of a reported node failure: the
/// failed node's processor (the reporting worker) and subscribers are
/// owed a `ValueProcessingFailed` notification, and the node leaves the
/// change set together with every node transitively depending on it; an
/// emptied change set is dropped.  An unknown change set or node changes
/// nothing and notifies nobody.
pub open spec fn graph_fail(g: GraphModel, csid: Id, nid: Id) -> (GraphModel, Seq<Seq<char>>) {
    if !has_key(g, csid) {
        (g, Seq::<Seq<char>>::empty())
    } else {
        let cs = lookup(g, csid);
        if !has_key(cs, nid) {
            (g, Seq::<Seq<char>>::empty())
        } else {
            let nm = lookup(cs, nid);
            let rest = cs.remove(index_of_key(cs, nid));
            let doomed = doom_iter(rest, seq![nid], rest.len() as nat);
            let cs2 = cs_drop_doomed(rest, doomed);
            let reply = match nm.processing {
                Some(p) => seq![p] + nm.wanted_by,
                None => nm.wanted_by,
            };
            let g2 = if cs2.len() == 0 {
                g.remove(index_of_key(g, csid))
            } else {
                g.update(index_of_key(g, csid), (csid, cs2))
            };
            (g2, reply)
        }
    }
}

/// The model of a reply carrying a list of channels.
pub open spec fn reply_model(r: Result<Vec<String>, Error>) -> Result<Seq<Seq<char>>, Error> {
    match r {
        Ok(v) => Ok(v.deep_view()),
        Err(e) => Err(e),
    }
}

/// Removing an entry keeps the remaining keys unique.
pub proof fn lemma_remove_entry_unique<T>(s: Seq<(Id, T)>, i: int)
    requires
        keys_unique(s),
        0 <= i < s.len(),
    ensures
        keys_unique(s.remove(i)),
{
    s.remove_ensures(i);
}

/// Registering a node keeps keys unique, and adds exactly the key `nid`.
pub proof fn lemma_cs_merge_entry_wf(cs: CsModel, ch: Seq<char>, nid: Id, deps: Seq<Id>)
    requires
        keys_unique(cs),
    ensures
        keys_unique(cs_merge_entry(cs, ch, nid, deps)),
        forall|k: Id|
            has_key(#[trigger] cs_merge_entry(cs, ch, nid, deps), k) <==> (has_key(cs, k) || k
                == nid),
{
    let out = cs_merge_entry(cs, ch, nid, deps);
    if has_key(cs, nid) {
        let i = index_of_key(cs, nid);
        assert(0 <= i < cs.len() && cs[i].0 == nid);
        assert forall|k: Id| has_key(out, k) implies has_key(cs, k) || k == nid by {
            let w = choose|w: int| 0 <= w < out.len() && out[w].0 == k;
            assert(cs[w].0 == out[w].0);
        }
        assert forall|k: Id| has_key(cs, k) implies has_key(out, k) by {
            let w = choose|w: int| 0 <= w < cs.len() && cs[w].0 == k;
            assert(out[w].0 == cs[w].0);
        }
    } else {
        assert forall|k: Id| has_key(out, k) implies has_key(cs, k) || k == nid by {
            let w = choose|w: int| 0 <= w < out.len() && out[w].0 == k;
            if w < cs.len() {
                assert(cs[w].0 == k);
            }
        }
        assert forall|k: Id| has_key(cs, k) implies has_key(out, k) by {
            let w = choose|w: int| 0 <= w < cs.len() && cs[w].0 == k;
            assert(out[w].0 == k);
        }
        assert(out[cs.len() as int].0 == nid);
    }
}

/// Model of a vector of node entries.
pub open spec fn cs_model(v: Seq<(Id, NodeMetadata)>) -> CsModel {
    v.map_values(|p: (Id, NodeMetadata)| (p.0, p.1@))
}

/// Model of a vector of change-set entries.
pub open spec fn graph_model(v: Seq<(Id, Vec<(Id, NodeMetadata)>)>) -> GraphModel {
    v.map_values(|p: (Id, Vec<(Id, NodeMetadata)>)| (p.0, cs_model(p.1@)))
}

/// Within a well-formed graph every change set's entry projects as its
/// model, keyed uniquely.
pub proof fn lemma_wf_inner(g: GraphModel, dd: Seq<(Id, Vec<(Id, NodeMetadata)>)>, i: int)
    requires
        graph_wf(g),
        g == graph_model(dd),
        0 <= i < dd.len(),
    ensures
        keys_unique(cs_model(dd[i].1@)),
        g[i] == (dd[i].0, cs_model(dd[i].1@)),
{
    assert(graph_model(dd)[i] == (dd[i].0, cs_model(dd[i].1@)));
    assert(keys_unique(g[i].1));
}

/// Model of a submitted dependency graph: each declared node with the
/// ids it depends on.
pub open spec fn entries_model(v: Seq<(Id, Vec<Id>)>) -> Seq<(Id, Seq<Id>)> {
    v.map_values(|p: (Id, Vec<Id>)| (p.0, p.1@))
}

/// Taking the head off a node vector whose model is the tail window of
/// `m` starting at `i` advances the window by one.
pub proof fn lemma_cs_model_step(
    pre: Seq<(Id, NodeMetadata)>,
    post: Seq<(Id, NodeMetadata)>,
    m: CsModel,
    i: int,
)
    requires
        0 <= i,
        i + pre.len() == m.len(),
        cs_model(pre) == m.skip(i),
        pre.len() > 0,
        post == pre.remove(0),
    ensures
        cs_model(post) == m.skip(i + 1),
        m[i] == (pre[0].0, pre[0].1@),
{
    assert(cs_model(pre)[0] == (pre[0].0, pre[0].1@));
    assert(m.skip(i)[0] == m[i + 0]);
    assert forall|x: int| 0 <= x < post.len() implies #[trigger] cs_model(post)[x] == m.skip(
        i + 1,
    )[x] by {
        assert(post[x] == pre[x + 1]);
        assert(cs_model(post)[x] == (post[x].0, post[x].1@));
        assert(cs_model(pre)[x + 1] == (pre[x + 1].0, pre[x + 1].1@));
        assert(m.skip(i)[x + 1] == m[i + x + 1]);
        assert(m.skip(i + 1)[x] == m[i + 1 + x]);
    }
    assert(cs_model(post) =~~= m.skip(i + 1));
}

/// The same, one level up: taking the head off a change-set vector.
pub proof fn lemma_graph_model_step(
    pre: Seq<(Id, Vec<(Id, NodeMetadata)>)>,
    post: Seq<(Id, Vec<(Id, NodeMetadata)>)>,
    m: GraphModel,
    i: int,
)
    requires
        0 <= i,
        i + pre.len() == m.len(),
        graph_model(pre) == m.skip(i),
        pre.len() > 0,
        post == pre.remove(0),
    ensures
        graph_model(post) == m.skip(i + 1),
        m[i] == (pre[0].0, cs_model(pre[0].1@)),
{
    assert(graph_model(pre)[0] == (pre[0].0, cs_model(pre[0].1@)));
    assert(m.skip(i)[0] == m[i + 0]);
    assert forall|x: int| 0 <= x < post.len() implies #[trigger] graph_model(post)[x] == m.skip(
        i + 1,
    )[x] by {
        assert(post[x] == pre[x + 1]);
        assert(graph_model(post)[x] == (post[x].0, cs_model(post[x].1@)));
        assert(graph_model(pre)[x + 1] == (pre[x + 1].0, cs_model(pre[x + 1].1@)));
        assert(m.skip(i)[x + 1] == m[i + x + 1]);
        assert(m.skip(i + 1)[x] == m[i + 1 + x]);
    }
    assert(graph_model(post) =~~= m.skip(i + 1));
}

/// The same for a submitted dependency graph consumed entry by entry.
pub proof fn lemma_entries_model_step(
    pre: Seq<(Id, Vec<Id>)>,
    post: Seq<(Id, Vec<Id>)>,
    m: Seq<(Id, Seq<Id>)>,
    i: int,
)
    requires
        0 <= i,
        i + pre.len() == m.len(),
        entries_model(pre) == m.skip(i),
        pre.len() > 0,
        post == pre.remove(0),
    ensures
        entries_model(post) == m.skip(i + 1),
        m[i] == (pre[0].0, pre[0].1@),
{
    assert(entries_model(pre)[0] == (pre[0].0, pre[0].1@));
    assert(m.skip(i)[0] == m[i + 0]);
    assert forall|x: int| 0 <= x < post.len() implies #[trigger] entries_model(post)[x] == m.skip(
        i + 1,
    )[x] by {
        assert(post[x] == pre[x + 1]);
        assert(entries_model(post)[x] == (post[x].0, post[x].1@));
        assert(entries_model(pre)[x + 1] == (pre[x + 1].0, pre[x + 1].1@));
        assert(m.skip(i)[x + 1] == m[i + x + 1]);
        assert(m.skip(i + 1)[x] == m[i + 1 + x]);
    }
    assert(entries_model(post) =~~= m.skip(i + 1));
}

/// Find the position of key `k` in an association vector of nodes.
pub(crate) fn find_node_index(v: &Vec<(Id, NodeMetadata)>, k: Id) -> (r: Option<usize>)
    ensures
        match r {
            Some(i) => i < v@.len() && v@[i as int].0 == k,
            None => !has_key(cs_model(v@), k),
        },
{
    let mut i: usize = 0;
    while i < v.len()
        invariant
            i <= v@.len(),
            forall|j: int| 0 <= j < i ==> v@[j].0 != k,
        decreases v@.len() - i,
    {
        if v[i].0 == k {
            return Some(i);
        }
        i = i + 1;
    }
    proof {
        assert forall|j: int| 0 <= j < cs_model(v@).len() implies cs_model(v@)[j].0 != k by {
            assert(cs_model(v@)[j].0 == v@[j].0);
        }
    }
    None
}

/// Register `reply_channel`'s interest in node `nid` with `dependencies`,
/// updating the node in place or appending a fresh one.
fn upsert_merge(
    nodes: &mut Vec<(Id, NodeMetadata)>,
    nid: Id,
    reply_channel: &String,
    dependencies: &Vec<Id>,
)
    requires
        keys_unique(cs_model(old(nodes)@)),
    ensures
        cs_model(final(nodes)@) == cs_merge_entry(
            cs_model(old(nodes)@),
            reply_channel@,
            nid,
            dependencies@,
        ),
        keys_unique(cs_model(final(nodes)@)),
{
    let ghost cs0 = cs_model(nodes@);
    proof {
        lemma_cs_merge_entry_wf(cs0, reply_channel@, nid, dependencies@);
    }
    match find_node_index(nodes, nid) {
        Some(j) => {
            proof {
                assert(cs0[j as int].0 == nodes@[j as int].0);
                lemma_index_of_key(cs0, nid, j as int);
            }
            let pair = nodes.remove(j);
            let mut nm = pair.1;
            nm.merge_metadata(reply_channel.clone(), dependencies);
            nodes.insert(j, (pair.0, nm));
            proof {
                assert(cs_model(nodes@) =~~= cs0.update(
                    j as int,
                    (nid, node_merge(cs0[j as int].1, reply_channel@, dependencies@)),
                ));
            }
        },
        None => {
            let mut nm = NodeMetadata::default();
            nm.merge_metadata(reply_channel.clone(), dependencies);
            nodes.push((nid, nm));
            proof {
                assert(nm@ == node_merge(empty_node(), reply_channel@, dependencies@));
                assert(cs_model(nodes@) =~~= cs0.push((nid, nm@)));
            }
        },
    }
}

/// The coordinator's dependency data: per change set, per node, who wants
/// it, who is computing it, and what it still waits on.
pub struct ChangeSetGraph {
    dependency_data: Vec<(Id, Vec<(Id, NodeMetadata)>)>,
}

impl View for ChangeSetGraph {
    type V = GraphModel;

    closed spec fn view(&self) -> GraphModel {
        graph_model(self.dependency_data@)
    }
}

impl Default for ChangeSetGraph {
    /// A graph with no change sets.
    fn default() -> (g: Self)
        ensures
            g@ == Seq::<(Id, CsModel)>::empty(),
            graph_wf(g@),
    {
        let g = ChangeSetGraph { dependency_data: Vec::new() };
        proof {
            assert(g@ =~~= Seq::<(Id, CsModel)>::empty());
        }
        g
    }
}

impl ChangeSetGraph {
    /// Find the position of change set `k`.
    fn find_cs_index(&self, k: Id) -> (r: Option<usize>)
        ensures
            match r {
                Some(i) => i < self@.len() && self@[i as int].0 == k,
                None => !has_key(self@, k),
            },
    {
        let mut i: usize = 0;
        while i < self.dependency_data.len()
            invariant
                i <= self.dependency_data@.len(),
                forall|j: int| 0 <= j < i ==> self.dependency_data@[j].0 != k,
            decreases self.dependency_data@.len() - i,
        {
            if self.dependency_data[i].0 == k {
                proof {
                    assert(self@[i as int].0 == self.dependency_data@[i as int].0);
                }
                return Some(i);
            }
            i = i + 1;
        }
        proof {
            assert forall|j: int| 0 <= j < self@.len() implies self@[j].0 != k by {
                assert(self@[j].0 == self.dependency_data@[j].0);
            }
        }
        None
    }

    /// Whether no change set is live.
    pub fn is_empty(&self) -> (r: bool)
        ensures
            r == (self@.len() == 0),
    {
        self.dependency_data.len() == 0
    }

    /// Claim every node that is ready: dependencies resolved, nobody
    /// processing, somebody interested.  Each claimed node's processor is
    /// the head of its `wanted_by` line, and one `(channel, node)` pair
    /// per claim is returned; the caller dispatches one `ProcessValue`
    /// notification per pair.
    #[verifier::loop_isolation(false)]
    pub fn fetch_all_available(&mut self) -> (r: Vec<(String, Id)>)
        requires
            graph_wf(old(self)@),
        ensures
            final(self)@ == graph_claim_pass(old(self)@).0,
            r.deep_view() == graph_claim_pass(old(self)@).1,
            graph_wf(final(self)@),
    {
        let ghost g0 = self@;
        let cs_count: usize = self.dependency_data.len();
        let mut result: Vec<(String, Id)> = Vec::new();
        let mut new_data: Vec<(Id, Vec<(Id, NodeMetadata)>)> = Vec::new();
        let mut i: usize = 0;
        proof {
            assert(g0.skip(0) =~~= g0);
            assert(g0.take(0) =~~= Seq::<(Id, CsModel)>::empty());
            assert(new_data@.map_values(|p: (Id, Vec<(Id, NodeMetadata)>)| (p.0, cs_model(p.1@)))
                =~~= graph_claim_pass(g0.take(0)).0);
            assert(result.deep_view() =~~= graph_claim_pass(g0.take(0)).1);
        }
        while self.dependency_data.len() > 0
            invariant
                cs_count as int == g0.len(),
                i as int == g0.len() - self.dependency_data@.len(),
                self@ == g0.skip(i as int),
                new_data@.map_values(|p: (Id, Vec<(Id, NodeMetadata)>)| (p.0, cs_model(p.1@)))
                    == graph_claim_pass(g0.take(i as int)).0,
                result.deep_view() == graph_claim_pass(g0.take(i as int)).1,
            decreases self.dependency_data@.len(),
        {
            let ghost dd = self.dependency_data@;
            let entry = self.dependency_data.remove(0);
            let csid = entry.0;
            let mut nodes = entry.1;
            proof {
                lemma_graph_model_step(dd, self.dependency_data@, g0, i as int);
                assert(g0[i as int] == (csid, cs_model(nodes@)));
            }
            let ghost cs0 = cs_model(nodes@);
            let node_count: usize = nodes.len();
            let ghost pairs_start = result.deep_view();
            let mut out_nodes: Vec<(Id, NodeMetadata)> = Vec::new();
            let mut k: usize = 0;
            proof {
                assert(cs0.skip(0) =~~= cs0);
                assert(cs0.take(0) =~~= Seq::<(Id, NodeModel)>::empty());
                assert(cs_model(out_nodes@) =~~= cs_claim_pass(cs0.take(0)).0);
                assert(result.deep_view() =~~= pairs_start + cs_claim_pass(cs0.take(0)).1);
            }
            while nodes.len() > 0
                invariant
                    node_count as int == cs0.len(),
                    k as int == cs0.len() - nodes@.len(),
                    cs_model(nodes@) == cs0.skip(k as int),
                    cs_model(out_nodes@) == cs_claim_pass(cs0.take(k as int)).0,
                    result.deep_view() == pairs_start + cs_claim_pass(cs0.take(k as int)).1,
                decreases nodes@.len(),
            {
                let ghost ns = nodes@;
                let p = nodes.remove(0);
                let nid = p.0;
                let mut nm = p.1;
                proof {
                    lemma_cs_model_step(ns, nodes@, cs0, k as int);
                    assert(cs0[k as int] == (nid, nm@));
                }
                let c = nm.next_to_process();
                let ghost before_nodes = cs_model(out_nodes@);
                out_nodes.push((nid, nm));
                proof {
                    assert(cs_model(out_nodes@) =~~= before_nodes.push((nid, nm@)));
                }
                if let Some(ch) = c {
                    let ghost chv = ch@;
                    let ghost before_pairs = result.deep_view();
                    result.push((ch, nid));
                    proof {
                        assert(result.deep_view() =~~= before_pairs.push((chv, nid)));
                    }
                }
                proof {
                    let t = cs0.take(k as int + 1);
                    assert(t.drop_last() =~~= cs0.take(k as int));
                    assert(t.last() == cs0[k as int]);
                    assert(cs_model(out_nodes@) == cs_claim_pass(t).0);
                    assert(result.deep_view() =~~= pairs_start + cs_claim_pass(t).1);
                }
                k = k + 1;
            }
            proof {
                assert(cs0.take(cs0.len() as int) =~~= cs0);
            }
            let ghost nd_before = new_data@.map_values(
                |p: (Id, Vec<(Id, NodeMetadata)>)| (p.0, cs_model(p.1@)),
            );
            new_data.push((csid, out_nodes));
            proof {
                let t = g0.take(i as int + 1);
                assert(t.drop_last() =~~= g0.take(i as int));
                assert(t.last() == g0[i as int]);
                assert(new_data@.map_values(
                    |p: (Id, Vec<(Id, NodeMetadata)>)| (p.0, cs_model(p.1@)),
                ) =~~= nd_before.push((csid, cs_claim_pass(cs0).0)));
                assert(result.deep_view() =~~= graph_claim_pass(t).1);
            }
            i = i + 1;
        }
        proof {
            assert(g0.take(g0.len() as int) =~~= g0);
        }
        self.dependency_data = new_data;
        proof {
            assert(self@ =~~= graph_claim_pass(g0).0);
            lemma_graph_claim_pass_shape(g0);
            assert forall|x: int, y: int| 0 <= x < y < self@.len() implies self@[x].0
                != self@[y].0 by {
                assert(self@[x].0 == g0[x].0);
                assert(self@[y].0 == g0[y].0);
            }
            assert forall|x: int| 0 <= x < self@.len() implies keys_unique(
                #[trigger] self@[x].1,
            ) by {
                assert(self@[x].1 == cs_claim_pass(g0[x].1).0);
                lemma_cs_claim_pass_shape(g0[x].1);
                assert forall|a: int, b: int|
                    0 <= a < b < self@[x].1.len() implies self@[x].1[a].0 != self@[x].1[b].0 by {
                    assert(cs_claim_pass(g0[x].1).0[a].0 == g0[x].1[a].0);
                    assert(cs_claim_pass(g0[x].1).0[b].0 == g0[x].1[b].0);
                }
            }
        }
        result
    }

    /// Merge a submitted dependency graph into change set `change_set_id`
    /// on behalf of `reply_channel`.  Every declared node and every node
    /// named as a dependency is upserted, and the submitting channel is
    /// registered as interested in all of them.
    #[verifier::loop_isolation(false)]
    pub fn merge_dependency_graph(
        &mut self,
        reply_channel: String,
        new_dependency_data: DepGraph,
        change_set_id: Id,
    ) -> (r: Result<(), Error>)
        requires
            graph_wf(old(self)@),
        ensures
            final(self)@ == graph_merge(
                old(self)@,
                reply_channel@,
                entries_model(new_dependency_data@),
                change_set_id,
            ),
            graph_wf(final(self)@),
            r == Ok::<(), Error>(()),
    {
        let ghost total = entries_model(new_dependency_data@);
        let found = self.find_cs_index(change_set_id);
        let pos: usize;
        let mut nodes: Vec<(Id, NodeMetadata)>;
        match found {
            Some(i) => {
                proof {
                    lemma_index_of_key(self@, change_set_id, i as int);
                    lemma_wf_inner(self@, self.dependency_data@, i as int);
                }
                pos = i;
                let entry = self.dependency_data.remove(i);
                nodes = entry.1;
            },
            None => {
                pos = self.dependency_data.len();
                nodes = Vec::new();
            },
        }
        let ghost cs0 = cs_model(nodes@);
        proof {
            if found is None {
                assert(cs0 =~~= Seq::<(Id, NodeModel)>::empty());
            }
            assert(total.take(0) =~~= Seq::<(Id, Seq<Id>)>::empty());
            assert(total.skip(0) =~~= total);
        }
        let mut data = new_dependency_data;
        let total_count: usize = data.len();
        let mut idx: usize = 0;
        while data.len() > 0
            invariant
                total_count as int == total.len(),
                idx as int == total.len() - data@.len(),
                entries_model(data@) == total.skip(idx as int),
                cs_model(nodes@) == cs_merge_graph(cs0, reply_channel@, total.take(idx as int)),
                keys_unique(cs_model(nodes@)),
            decreases data@.len(),
        {
            let ghost ds = data@;
            let entry = data.remove(0);
            let nid = entry.0;
            let deps = entry.1;
            proof {
                lemma_entries_model_step(ds, data@, total, idx as int);
                assert(total[idx as int] == (nid, deps@));
            }
            let ghost base = cs_merge_entry(
                cs_merge_graph(cs0, reply_channel@, total.take(idx as int)),
                reply_channel@,
                nid,
                deps@,
            );
            upsert_merge(&mut nodes, nid, &reply_channel, &deps);
            let empty_deps: Vec<Id> = Vec::new();
            proof {
                assert(empty_deps@ =~~= Seq::<Id>::empty());
                assert(deps@.take(0) =~~= Seq::<Id>::empty());
            }
            let mut k: usize = 0;
            while k < deps.len()
                invariant
                    k <= deps@.len(),
                    empty_deps@ == Seq::<Id>::empty(),
                    cs_model(nodes@) == cs_merge_deps(base, reply_channel@, deps@.take(k as int)),
                    keys_unique(cs_model(nodes@)),
                decreases deps@.len() - k,
            {
                let d = deps[k];
                upsert_merge(&mut nodes, d, &reply_channel, &empty_deps);
                proof {
                    assert(deps@.take(k as int + 1).drop_last() =~~= deps@.take(k as int));
                    assert(deps@.take(k as int + 1).last() == d);
                }
                k = k + 1;
            }
            proof {
                assert(deps@.take(deps@.len() as int) =~~= deps@);
                assert(total.take(idx as int + 1).drop_last() =~~= total.take(idx as int));
                assert(total.take(idx as int + 1).last() == total[idx as int]);
                assert(cs_model(nodes@) == cs_merge_graph(
                    cs0,
                    reply_channel@,
                    total.take(idx as int + 1),
                ));
            }
            idx = idx + 1;
        }
        proof {
            assert(total.take(total.len() as int) =~~= total);
        }
        self.dependency_data.insert(pos, (change_set_id, nodes));
        proof {
            assert(self@ =~~= graph_merge(old(self)@, reply_channel@, total, change_set_id));
            assert forall|i: int| 0 <= i < self@.len() implies keys_unique(#[trigger] self@[i].1) by {
                let g2 = graph_merge(old(self)@, reply_channel@, total, change_set_id);
                if i != pos as int {
                    if has_key(old(self)@, change_set_id) {
                        assert(g2[i] == old(self)@[i]);
                    } else {
                        assert(g2[i] == old(self)@[i]);
                    }
                }
            }
            assert(keys_unique(self@));
        }
        Ok(())
    }

    /// Record that `reply_channel` has computed node `node_id` of change
    /// set `change_set_id`.  The caller must be the node's current
    /// processor.  When the node has no outstanding dependencies it is
    /// complete: it leaves the change set, every sibling stops waiting on
    /// it, an emptied change set is dropped, and the channels still
    /// subscribed to the node — the secondary subscribers owed a
    /// `ValueAvailable` notification — are returned.
    #[verifier::loop_isolation(false)]
    pub fn mark_node_as_processed(
        &mut self,
        reply_channel: String,
        change_set_id: Id,
        node_id: Id,
    ) -> (r: Result<Vec<String>, Error>)
        requires
            graph_wf(old(self)@),
        ensures
            final(self)@ == graph_mark_processed(
                old(self)@,
                reply_channel@,
                change_set_id,
                node_id,
            ).0,
            reply_model(r) == graph_mark_processed(
                old(self)@,
                reply_channel@,
                change_set_id,
                node_id,
            ).1,
            graph_wf(final(self)@),
    {
        let pos = match self.find_cs_index(change_set_id) {
            Some(i) => i,
            None => {
                return Err(Error::UnknownNodeId);
            },
        };
        proof {
            lemma_index_of_key(self@, change_set_id, pos as int);
            lemma_wf_inner(self@, self.dependency_data@, pos as int);
        }
        let entry = self.dependency_data.remove(pos);
        let csid = entry.0;
        let mut nodes = entry.1;
        let ghost cs0 = cs_model(nodes@);
        let j = match find_node_index(&nodes, node_id) {
            Some(j) => j,
            None => {
                self.dependency_data.insert(pos, (csid, nodes));
                proof {
                    assert(self@ =~~= old(self)@);
                }
                return Err(Error::UnknownNodeId);
            },
        };
        proof {
            assert(cs0[j as int].0 == nodes@[j as int].0);
            lemma_index_of_key(cs0, node_id, j as int);
        }
        let pair = nodes.remove(j);
        let mut nm = pair.1;
        if !nm.processing_is(&reply_channel) {
            nodes.insert(j, (pair.0, nm));
            proof {
                assert(nodes@ =~~= old(self).dependency_data@[pos as int].1@);
            }
            self.dependency_data.insert(pos, (csid, nodes));
            proof {
                assert(self@ =~~= old(self)@);
            }
            return Err(Error::ShouldNotBeProcessingByJob);
        }
        let complete = nm.dependency_count() == 0;
        nm.remove_channel(&reply_channel);
        if complete {
            let ghost rem = cs_model(nodes@);
            let ghost target = cs_after_complete(cs0, node_id);
            proof {
                assert(rem =~~= cs0.remove(j as int));
                assert(target == rem.map_values(
                    |p: (Id, NodeModel)| (p.0, node_remove_dep(p.1, node_id)),
                ));
                assert(target.take(0) =~~= Seq::<(Id, NodeModel)>::empty());
                assert(rem.skip(0) =~~= rem);
            }
            let mut out: Vec<(Id, NodeMetadata)> = Vec::new();
            let sibling_count: usize = nodes.len();
            let mut i: usize = 0;
            proof {
                assert(cs_model(out@) =~~= target.take(0));
            }
            while nodes.len() > 0
                invariant
                    sibling_count as int == rem.len(),
                    i as int == rem.len() - nodes@.len(),
                    cs_model(nodes@) == rem.skip(i as int),
                    cs_model(out@) == target.take(i as int),
                decreases nodes@.len(),
            {
                let ghost ns = nodes@;
                let p = nodes.remove(0);
                let nid2 = p.0;
                let mut sib = p.1;
                proof {
                    lemma_cs_model_step(ns, nodes@, rem, i as int);
                    assert(rem[i as int] == (nid2, sib@));
                }
                sib.remove_dependency(node_id);
                let ghost before = cs_model(out@);
                out.push((nid2, sib));
                proof {
                    assert(cs_model(out@) =~~= before.push((nid2, sib@)));
                    assert(target[i as int] == (nid2, node_remove_dep(rem[i as int].1, node_id)));
                    assert(cs_model(out@) =~~= target.take(i as int + 1));
                }
                i = i + 1;
            }
            proof {
                assert(target.take(target.len() as int) =~~= target);
                assert(cs_model(out@) == target);
            }
            if out.len() == 0 {
                proof {
                    assert(self@ =~~= graph_mark_processed(
                        old(self)@,
                        reply_channel@,
                        change_set_id,
                        node_id,
                    ).0);
                    assert(keys_unique(self@)) by {
                        old(self)@.remove_ensures(pos as int);
                    }
                }
                return Ok(nm.into_wanted_by());
            }
            self.dependency_data.insert(pos, (csid, out));
            proof {
                assert(self@ =~~= graph_mark_processed(
                    old(self)@,
                    reply_channel@,
                    change_set_id,
                    node_id,
                ).0);
                lemma_remove_entry_unique(cs0, j as int);
                assert(keys_unique(target)) by {
                    assert forall|x: int, y: int| 0 <= x < y < target.len() implies target[x].0
                        != target[y].0 by {
                        assert(target[x].0 == rem[x].0);
                        assert(target[y].0 == rem[y].0);
                    }
                }
            }
            return Ok(nm.into_wanted_by());
        }
        nodes.insert(j, (pair.0, nm));
        proof {
            assert(cs_model(nodes@) =~~= cs0.update(
                j as int,
                (node_id, node_remove_channel(cs0[j as int].1, reply_channel@)),
            ));
        }
        self.dependency_data.insert(pos, (csid, nodes));
        proof {
            assert(self@ =~~= graph_mark_processed(
                old(self)@,
                reply_channel@,
                change_set_id,
                node_id,
            ).0);
        }
        let reply: Vec<String> = Vec::new();
        proof {
            assert(reply.deep_view() =~~= Seq::<Seq<char>>::empty());
        }
        Ok(reply)
    }

    /// Record that computing `node_id` failed.  The node and every node
    /// of the change set that transitively depends on it are removed, and
    /// the channels owed a `ValueProcessingFailed` notification for the
    /// failed node — its processor, then its subscribers in registration
    /// order — are returned.
    #[verifier::loop_isolation(false)]
    pub fn fail_node(&mut self, change_set_id: Id, node_id: Id) -> (r: Vec<String>)
        requires
            graph_wf(old(self)@),
        ensures
            final(self)@ == graph_fail(old(self)@, change_set_id, node_id).0,
            r.deep_view() == graph_fail(old(self)@, change_set_id, node_id).1,
            graph_wf(final(self)@),
    {
        let none_to_notify: Vec<String> = Vec::new();
        proof {
            assert(none_to_notify.deep_view() =~~= Seq::<Seq<char>>::empty());
        }
        let pos = match self.find_cs_index(change_set_id) {
            Some(i) => i,
            None => {
                return none_to_notify;
            },
        };
        proof {
            lemma_index_of_key(self@, change_set_id, pos as int);
            lemma_wf_inner(self@, self.dependency_data@, pos as int);
        }
        let entry = self.dependency_data.remove(pos);
        let csid = entry.0;
        let mut nodes = entry.1;
        let ghost cs0 = cs_model(nodes@);
        let j = match find_node_index(&nodes, node_id) {
            Some(j) => j,
            None => {
                self.dependency_data.insert(pos, (csid, nodes));
                proof {
                    assert(self@ =~~= old(self)@);
                }
                return none_to_notify;
            },
        };
        proof {
            assert(cs0[j as int].0 == nodes@[j as int].0);
            lemma_index_of_key(cs0, node_id, j as int);
        }
        let pair = nodes.remove(j);
        let nm = pair.1;
        let ghost rest = cs_model(nodes@);
        proof {
            assert(rest =~~= cs0.remove(j as int));
        }
        let mut doomed: Vec<Id> = Vec::new();
        doomed.push(node_id);
        proof {
            assert(doomed@ =~~= seq![node_id]);
        }
        let total_passes = nodes.len();
        let mut pass: usize = 0;
        while pass < total_passes
            invariant
                pass <= total_passes,
                total_passes == rest.len(),
                cs_model(nodes@) == rest,
                doomed@ == doom_iter(rest, seq![node_id], pass as nat),
            decreases total_passes - pass,
        {
            let ghost start = doomed@;
            let mut j2: usize = 0;
            proof {
                assert(rest.take(0) =~~= Seq::<(Id, NodeModel)>::empty());
                assert(doomed@ == doom_pass(rest.take(0), start));
            }
            while j2 < nodes.len()
                invariant
                    j2 <= rest.len(),
                    cs_model(nodes@) == rest,
                    doomed@ == doom_pass(rest.take(j2 as int), start),
                decreases rest.len() - j2,
            {
                let p = &nodes[j2];
                let id2 = p.0;
                proof {
                    assert(cs_model(nodes@)[j2 as int] == (nodes@[j2 as int].0, nodes@[j2 as int].1@));
                    assert(rest[j2 as int] == (id2, p.1@));
                }
                if !contains_id(&doomed, id2) {
                    if p.1.waits_on_any(&doomed) {
                        doomed.push(id2);
                    }
                }
                proof {
                    let t = rest.take(j2 as int + 1);
                    assert(t.drop_last() =~~= rest.take(j2 as int));
                    assert(t.last() == rest[j2 as int]);
                    assert(doomed@ == doom_pass(t, start));
                }
                j2 = j2 + 1;
            }
            proof {
                assert(rest.take(rest.len() as int) =~~= rest);
            }
            pass = pass + 1;
        }
        let ghost doom_final = doomed@;
        let survivor_count: usize = nodes.len();
        let mut out: Vec<(Id, NodeMetadata)> = Vec::new();
        let mut k: usize = 0;
        proof {
            assert(rest.take(0) =~~= Seq::<(Id, NodeModel)>::empty());
            assert(cs_model(out@) =~~= cs_drop_doomed(rest.take(0), doom_final));
            assert(rest.skip(0) =~~= rest);
        }
        while nodes.len() > 0
            invariant
                survivor_count as int == rest.len(),
                k as int == rest.len() - nodes@.len(),
                cs_model(nodes@) == rest.skip(k as int),
                doomed@ == doom_final,
                cs_model(out@) == cs_drop_doomed(rest.take(k as int), doom_final),
            decreases nodes@.len(),
        {
            let ghost ns = nodes@;
            let p = nodes.remove(0);
            proof {
                lemma_cs_model_step(ns, nodes@, rest, k as int);
                assert(rest[k as int] == (p.0, p.1@));
            }
            if !contains_id(&doomed, p.0) {
                let ghost before = cs_model(out@);
                let keep_id = p.0;
                let keep_nm = p.1;
                out.push((keep_id, keep_nm));
                proof {
                    assert(cs_model(out@) =~~= before.push(rest[k as int]));
                }
            }
            proof {
                let t = rest.take(k as int + 1);
                assert(t.drop_last() =~~= rest.take(k as int));
                assert(t.last() == rest[k as int]);
                assert(cs_model(out@) == cs_drop_doomed(t, doom_final));
            }
            k = k + 1;
        }
        proof {
            assert(rest.take(rest.len() as int) =~~= rest);
        }
        if out.len() == 0 {
            proof {
                assert(self@ =~~= graph_fail(old(self)@, change_set_id, node_id).0);
                assert(keys_unique(self@)) by {
                    old(self)@.remove_ensures(pos as int);
                }
            }
            return nm.into_notify_list();
        }
        self.dependency_data.insert(pos, (csid, out));
        proof {
            assert(self@ =~~= graph_fail(old(self)@, change_set_id, node_id).0);
            lemma_remove_entry_unique(cs0, j as int);
            lemma_cs_drop_doomed_wf(rest, doom_final);
        }
        nm.into_notify_list()
    }

    /// Withdraw `reply_channel` from change set `change_set_id`: every
    /// node forgets the channel, and nodes nobody cares about any more are
    /// deleted.  The change-set entry itself is kept; normal completion is
    /// responsible for removing it.
    #[verifier::loop_isolation(false)]
    pub fn remove_channel(&mut self, change_set_id: Id, reply_channel: &String)
        requires
            graph_wf(old(self)@),
        ensures
            final(self)@ == graph_remove_channel(old(self)@, change_set_id, reply_channel@),
            graph_wf(final(self)@),
    {
        let pos = match self.find_cs_index(change_set_id) {
            Some(i) => i,
            None => {
                return ;
            },
        };
        proof {
            lemma_index_of_key(self@, change_set_id, pos as int);
            lemma_wf_inner(self@, self.dependency_data@, pos as int);
        }
        let entry = self.dependency_data.remove(pos);
        let csid = entry.0;
        let mut nodes = entry.1;
        let ghost orig = cs_model(nodes@);
        let removal_count: usize = nodes.len();
        let mut kept: Vec<(Id, NodeMetadata)> = Vec::new();
        let mut i: usize = 0;
        proof {
            assert(orig.take(0) =~~= Seq::<(Id, NodeModel)>::empty());
            assert(cs_model(kept@) =~~= cs_remove_channel(orig.take(0), reply_channel@));
            assert(orig.skip(0) =~~= orig);
        }
        while nodes.len() > 0
            invariant
                removal_count as int == orig.len(),
                i as int == orig.len() - nodes@.len(),
                cs_model(nodes@) == orig.skip(i as int),
                cs_model(kept@) == cs_remove_channel(orig.take(i as int), reply_channel@),
            decreases nodes@.len(),
        {
            let ghost ns = nodes@;
            let pair = nodes.remove(0);
            let nid = pair.0;
            let mut nm = pair.1;
            proof {
                lemma_cs_model_step(ns, nodes@, orig, i as int);
                assert(orig[i as int] == (nid, nm@));
            }
            nm.remove_channel(reply_channel);
            if !nm.is_empty() {
                let ghost before = cs_model(kept@);
                kept.push((nid, nm));
                proof {
                    assert(cs_model(kept@) =~~= before.push((nid, nm@)));
                }
            }
            proof {
                let t = orig.take(i as int + 1);
                assert(t.drop_last() =~~= orig.take(i as int));
                assert(t.last() == orig[i as int]);
                assert(cs_model(kept@) == cs_remove_channel(t, reply_channel@));
            }
            i = i + 1;
        }
        proof {
            assert(orig.take(orig.len() as int) =~~= orig);
        }
        self.dependency_data.insert(pos, (csid, kept));
        proof {
            lemma_cs_remove_channel_wf(orig, reply_channel@);
            assert(self@ =~~= graph_remove_channel(old(self)@, change_set_id, reply_channel@));
        }
    }
}

} // verus!
