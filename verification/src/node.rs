//! Per-node bookkeeping.
//!
//! One `NodeMetadata` exists for every live attribute-value node of a
//! change set.  It tracks which reply channels want to hear about the
//! node (`wanted_by`, in first-interest order, duplicates suppressed),
//! which single channel is currently computing its value (`processing`),
//! and which other nodes it still waits on (`depends_on`).

use vstd::prelude::*;

use crate::{remove_all, Id};

verus! {

/// Mathematical state of a `NodeMetadata`.
#[verifier::ext_equal]
pub ghost struct NodeModel {
    /// Channels awaiting notification of this node's completion, in the
    /// order their interest was first registered.
    pub wanted_by: Seq<Seq<char>>,
    /// The channel exclusively responsible for computing the value, if any.
    pub processing: Option<Seq<char>>,
    /// Nodes that must complete before this one may be claimed.
    pub depends_on: Seq<Id>,
}

/// `have` extended by those elements of `more` it does not hold yet, in
/// order of first appearance.
pub open spec fn add_new_ids(have: Seq<Id>, more: Seq<Id>) -> Seq<Id>
    decreases more.len(),
{
    if more.len() == 0 {
        have
    } else {
        let prev = add_new_ids(have, more.drop_last());
        if prev.contains(more.last()) {
            prev
        } else {
            prev.push(more.last())
        }
    }
}

/// State after a channel registers interest together with dependencies:
/// the channel joins `wanted_by` unless already present, and the new
/// dependencies are unioned into `depends_on`.
pub open spec fn node_merge(m: NodeModel, ch: Seq<char>, deps: Seq<Id>) -> NodeModel {
    NodeModel {
        wanted_by: if m.wanted_by.contains(ch) {
            m.wanted_by
        } else {
            m.wanted_by.push(ch)
        },
        processing: m.processing,
        depends_on: add_new_ids(m.depends_on, deps),
    }
}

/// State after dependency `dep` has completed.
pub open spec fn node_remove_dep(m: NodeModel, dep: Id) -> NodeModel {
    NodeModel {
        wanted_by: m.wanted_by,
        processing: m.processing,
        depends_on: remove_all(m.depends_on, dep),
    }
}

/// State and result of a claim attempt: when every dependency is resolved
/// and nobody is processing yet, the first channel that registered
/// interest becomes the processor and is returned.
pub open spec fn node_claim(m: NodeModel) -> (NodeModel, Option<Seq<char>>) {
    if m.depends_on.len() == 0 && m.processing is None && m.wanted_by.len() > 0 {
        (
            NodeModel {
                wanted_by: m.wanted_by.drop_first(),
                processing: Some(m.wanted_by.first()),
                depends_on: m.depends_on,
            },
            Some(m.wanted_by.first()),
        )
    } else {
        (m, None)
    }
}

/// Whether nobody is interested in the node any more.
pub open spec fn node_is_empty(m: NodeModel) -> bool {
    m.wanted_by.len() == 0 && m.processing is None
}

/// State after channel `ch` withdraws: it leaves `wanted_by` and releases
/// the processing slot if it held it.
pub open spec fn node_remove_channel(m: NodeModel, ch: Seq<char>) -> NodeModel {
    NodeModel {
        wanted_by: remove_all(m.wanted_by, ch),
        processing: if m.processing == Some(ch) {
            None
        } else {
            m.processing
        },
        depends_on: m.depends_on,
    }
}

/// Whether the node waits on any id of `ids`.
pub open spec fn node_waits_on_any(m: NodeModel, ids: Seq<Id>) -> bool {
    exists|x: int| 0 <= x < m.depends_on.len() && ids.contains(m.depends_on[x])
}

/// Whether `v` holds a string equal to `ch`.
pub(crate) fn contains_channel(v: &Vec<String>, ch: &String) -> (r: bool)
    ensures
        r == v.deep_view().contains(ch@),
{
    let mut i: usize = 0;
    while i < v.len()
        invariant
            i <= v@.len(),
            forall|j: int| 0 <= j < i ==> v.deep_view()[j] != ch@,
        decreases v@.len() - i,
    {
        if v[i] == *ch {
            proof {
                assert(v.deep_view()[i as int] == ch@);
            }
            return true;
        }
        i = i + 1;
    }
    false
}

/// Whether `v` holds the id `x`.
pub(crate) fn contains_id(v: &Vec<Id>, x: Id) -> (r: bool)
    ensures
        r == v@.contains(x),
{
    let mut i: usize = 0;
    while i < v.len()
        invariant
            i <= v@.len(),
            forall|j: int| 0 <= j < i ==> v@[j] != x,
        decreases v@.len() - i,
    {
        if v[i] == x {
            return true;
        }
        i = i + 1;
    }
    false
}

/// Bookkeeping for one attribute-value node within one change set.
pub struct NodeMetadata {
    wanted_by_reply_channels: Vec<String>,
    processing_reply_channel: Option<String>,
    depends_on_node_ids: Vec<Id>,
}

impl View for NodeMetadata {
    type V = NodeModel;

    closed spec fn view(&self) -> NodeModel {
        NodeModel {
            wanted_by: self.wanted_by_reply_channels.deep_view(),
            processing: self.processing_reply_channel.deep_view(),
            depends_on: self.depends_on_node_ids@,
        }
    }
}

impl Default for NodeMetadata {
    /// A fresh node: nobody interested, nobody processing, no dependencies.
    fn default() -> (n: Self)
        ensures
            n@.wanted_by == Seq::<Seq<char>>::empty(),
            n@.processing is None,
            n@.depends_on == Seq::<Id>::empty(),
    {
        let n = NodeMetadata {
            wanted_by_reply_channels: Vec::new(),
            processing_reply_channel: None,
            depends_on_node_ids: Vec::new(),
        };
        proof {
            assert(n@.wanted_by =~= Seq::<Seq<char>>::empty());
            assert(n@.depends_on =~= Seq::<Id>::empty());
        }
        n
    }
}

impl NodeMetadata {
    /// Register `reply_channel`'s interest and union `dependencies` into
    /// the nodes this one waits on.  Replaying identical input changes
    /// nothing.
    #[verifier::loop_isolation(false)]
    pub fn merge_metadata(&mut self, reply_channel: String, dependencies: &Vec<Id>)
        ensures
            final(self)@ == node_merge(old(self)@, reply_channel@, dependencies@),
    {
        let ghost chv = reply_channel@;
        if !contains_channel(&self.wanted_by_reply_channels, &reply_channel) {
            let ghost before = self.wanted_by_reply_channels.deep_view();
            self.wanted_by_reply_channels.push(reply_channel);
            proof {
                assert(self.wanted_by_reply_channels.deep_view() =~= before.push(chv));
            }
        }
        let mut i: usize = 0;
        proof {
            assert(dependencies@.take(0) =~= Seq::<Id>::empty());
        }
        while i < dependencies.len()
            invariant
                i <= dependencies@.len(),
                self.wanted_by_reply_channels.deep_view() == node_merge(
                    old(self)@,
                    chv,
                    dependencies@,
                ).wanted_by,
                self.processing_reply_channel == old(self).processing_reply_channel,
                self.depends_on_node_ids@ == add_new_ids(
                    old(self)@.depends_on,
                    dependencies@.take(i as int),
                ),
            decreases dependencies@.len() - i,
        {
            let d = dependencies[i];
            if !contains_id(&self.depends_on_node_ids, d) {
                self.depends_on_node_ids.push(d);
            }
            proof {
                assert(dependencies@.take(i as int + 1).drop_last() =~= dependencies@.take(
                    i as int,
                ));
            }
            i = i + 1;
        }
        proof {
            assert(dependencies@.take(dependencies@.len() as int) =~= dependencies@);
        }
    }

    /// Erase `node_id` from the dependencies (it has completed).
    #[verifier::loop_isolation(false)]
    pub fn remove_dependency(&mut self, node_id: Id)
        ensures
            final(self)@ == node_remove_dep(old(self)@, node_id),
    {
        let ghost orig = self.depends_on_node_ids@;
        let mut kept: Vec<Id> = Vec::new();
        let mut i: usize = 0;
        proof {
            assert(orig.take(0) =~= Seq::<Id>::empty());
            assert(kept@ =~= remove_all(orig.take(0), node_id));
        }
        while i < self.depends_on_node_ids.len()
            invariant
                i <= orig.len(),
                self.depends_on_node_ids@ == orig,
                kept@ == remove_all(orig.take(i as int), node_id),
            decreases orig.len() - i,
        {
            let d = self.depends_on_node_ids[i];
            if d != node_id {
                kept.push(d);
            }
            proof {
                assert(orig.take(i as int + 1).drop_last() =~= orig.take(i as int));
            }
            i = i + 1;
        }
        proof {
            assert(orig.take(orig.len() as int) =~= orig);
        }
        self.depends_on_node_ids = kept;
    }

    /// Claim the node for its first interested channel, when it is ready:
    /// no outstanding dependencies and no current processor.
    pub fn next_to_process(&mut self) -> (r: Option<String>)
        ensures
            final(self)@ == node_claim(old(self)@).0,
            r.deep_view() == node_claim(old(self)@).1,
    {
        if self.depends_on_node_ids.len() == 0 && self.processing_reply_channel.is_none() {
            if self.wanted_by_reply_channels.len() == 0 {
                return None;
            }
            let ch = self.wanted_by_reply_channels.remove(0);
            self.processing_reply_channel = Some(ch.clone());
            proof {
                assert(self@.wanted_by =~= old(self)@.wanted_by.drop_first());
            }
            return Some(ch);
        }
        None
    }

    /// Whether nobody is interested in the node any more.
    pub fn is_empty(&self) -> (r: bool)
        ensures
            r == node_is_empty(self@),
    {
        self.wanted_by_reply_channels.len() == 0 && self.processing_reply_channel.is_none()
    }

    /// Whether `reply_channel` is the node's current processor.
    pub fn processing_is(&self, reply_channel: &String) -> (r: bool)
        ensures
            r == (self@.processing == Some(reply_channel@)),
    {
        match &self.processing_reply_channel {
            Some(p) => *p == *reply_channel,
            None => false,
        }
    }

    /// How many dependencies are still outstanding.
    pub fn dependency_count(&self) -> (r: usize)
        ensures
            r == self@.depends_on.len(),
    {
        self.depends_on_node_ids.len()
    }

    /// Whether this node still waits on `node_id`.
    pub fn waits_on(&self, node_id: Id) -> (r: bool)
        ensures
            r == self@.depends_on.contains(node_id),
    {
        contains_id(&self.depends_on_node_ids, node_id)
    }

    /// Surrender the node, yielding the channels still awaiting its
    /// completion, in registration order.
    pub fn into_wanted_by(self) -> (r: Vec<String>)
        ensures
            r.deep_view() == self@.wanted_by,
    {
        self.wanted_by_reply_channels
    }

    /// Whether the node waits on any of `ids`.
    pub fn waits_on_any(&self, ids: &Vec<Id>) -> (r: bool)
        ensures
            r == node_waits_on_any(self@, ids@),
    {
        let mut j: usize = 0;
        while j < self.depends_on_node_ids.len()
            invariant
                j <= self@.depends_on.len(),
                forall|x: int| 0 <= x < j ==> !ids@.contains(self@.depends_on[x]),
            decreases self@.depends_on.len() - j,
        {
            if contains_id(ids, self.depends_on_node_ids[j]) {
                return true;
            }
            j = j + 1;
        }
        false
    }

    /// Surrender the node, yielding everyone owed a failure notification:
    /// the current processor, if any, followed by the subscribers in
    /// registration order.
    pub fn into_notify_list(self) -> (r: Vec<String>)
        ensures
            r.deep_view() == (match self@.processing {
                Some(p) => seq![p] + self@.wanted_by,
                None => self@.wanted_by,
            }),
    {
        let ghost m = self@;
        match self.processing_reply_channel {
            Some(p) => {
                let ghost pv = p@;
                let mut v: Vec<String> = Vec::new();
                v.push(p);
                let mut rest = self.wanted_by_reply_channels;
                v.append(&mut rest);
                proof {
                    assert(v.deep_view() =~= seq![pv] + m.wanted_by);
                }
                v
            },
            None => self.wanted_by_reply_channels,
        }
    }

    /// Withdraw `reply_channel` from this node entirely.
    #[verifier::loop_isolation(false)]
    pub fn remove_channel(&mut self, reply_channel: &String)
        ensures
            final(self)@ == node_remove_channel(old(self)@, reply_channel@),
    {
        let clear = match &self.processing_reply_channel {
            Some(p) => *p == *reply_channel,
            None => false,
        };
        if clear {
            self.processing_reply_channel = None;
        }
        let ghost orig = self.wanted_by_reply_channels.deep_view();
        let mut kept: Vec<String> = Vec::new();
        let mut i: usize = 0;
        proof {
            assert(orig.take(0) =~= Seq::<Seq<char>>::empty());
            assert(kept.deep_view() =~= remove_all(orig.take(0), reply_channel@));
        }
        while i < self.wanted_by_reply_channels.len()
            invariant
                i <= orig.len(),
                self.wanted_by_reply_channels.deep_view() == orig,
                kept.deep_view() == remove_all(orig.take(i as int), reply_channel@),
            decreases orig.len() - i,
        {
            let s = &self.wanted_by_reply_channels[i];
            if !(*s == *reply_channel) {
                let ghost before = kept.deep_view();
                kept.push(s.clone());
                proof {
                    assert(kept.deep_view() =~= before.push(s@));
                }
            }
            proof {
                let t = orig.take(i as int + 1);
                assert(t.drop_last() =~= orig.take(i as int));
                assert(t.last() == s@);
                assert(kept.deep_view() == remove_all(t, reply_channel@));
            }
            i = i + 1;
        }
        proof {
            assert(orig.take(orig.len() as int) =~= orig);
        }
        self.wanted_by_reply_channels = kept;
    }
}

} // verus!
