//! The commit protocol: staging queued edits on the pending topology and
//! publishing it as the snapshot that the render side reads.

use vstd::prelude::*;
use std::collections::VecDeque;
use crate::handle::NodeHandle;
use crate::queue::ChangeQueue;
use crate::store::{GraphSnapshot, GraphStore};
use crate::topology::{
    lemma_add_node_sound, lemma_committed_sound, lemma_connect_sound, lemma_disconnect_sound,
    lemma_remove_node_sound, spec_names, Connection, Edge, GraphError, Sink,
    Topology, UnitDescriptor,
};

verus! {

/// An edit of the topology, as data. Edits are queued by whoever issues them
/// and replayed later on the pending topology.
#[derive(Clone, Debug)]
pub enum Edit {
    AddNode(UnitDescriptor),
    RemoveNode(NodeHandle),
    Connect(Connection),
    Disconnect(Connection),
}

/// What became of a staged edit.
#[derive(Clone, Copy, Debug, PartialEq, Eq, Structural)]
pub enum EditOutcome {
    /// A node was added under this handle.
    Added(NodeHandle),
    /// The edit was applied.
    Applied,
    /// The edit was refused and dropped; the edits behind it still apply.
    Rejected(GraphError),
}

/// Where a node stands between its creation and its removal.
#[derive(Clone, Copy, Debug, PartialEq, Eq, Structural)]
pub enum NodePhase {
    /// Added to the pending topology, not yet published.
    Uncommitted,
    /// Published: the render side renders it.
    Live,
    /// Its removal is staged; the render side still renders it.
    PendingRemoval,
    /// Gone, or never there: the handle names nothing.
    Removed,
}

/// The topology after one edit, and what became of the edit.
pub open spec fn spec_apply(t: Topology, e: Edit) -> (Topology, EditOutcome) {
    match e {
        Edit::AddNode(d) => (
            t.spec_add_node(spec_names(d.inputs@), d.outputs),
            EditOutcome::Added(t.spec_next_handle()),
        ),
        Edit::RemoveNode(h) => match t.spec_remove_node(h) {
            Ok(t2) => (t2, EditOutcome::Applied),
            Err(err) => (t, EditOutcome::Rejected(err)),
        },
        Edit::Connect(c) => match t.spec_connect(c) {
            Ok(t2) => (t2, EditOutcome::Applied),
            Err(err) => (t, EditOutcome::Rejected(err)),
        },
        Edit::Disconnect(c) => match t.spec_disconnect(c) {
            Ok(t2) => (t2, EditOutcome::Applied),
            Err(err) => (t, EditOutcome::Rejected(err)),
        },
    }
}

/// The topology after a run of edits, applied in order. An edit that is
/// refused changes nothing and does not stop the edits behind it.
pub open spec fn spec_apply_all(t: Topology, edits: Seq<Edit>) -> Topology
    decreases edits.len(),
{
    if edits.len() == 0 {
        t
    } else {
        spec_apply_all(spec_apply(t, edits.first()).0, edits.drop_first())
    }
}

/// What became of each edit of a run.
pub open spec fn spec_outcomes(t: Topology, edits: Seq<Edit>) -> Seq<EditOutcome>
    decreases edits.len(),
{
    if edits.len() == 0 {
        Seq::empty()
    } else {
        seq![spec_apply(t, edits.first()).1] + spec_outcomes(
            spec_apply(t, edits.first()).0,
            edits.drop_first(),
        )
    }
}

/// At least one of the edits was not refused.
pub open spec fn spec_any_accepted(outcomes: Seq<EditOutcome>) -> bool {
    exists|i: int| 0 <= i < outcomes.len() && !(#[trigger] outcomes[i] is Rejected)
}

/// What the commit protocol is about: the pending topology, the topology
/// that is live, and whether the pending one was edited since it was last
/// published.
pub ghost struct ProtocolModel {
    pub pending: Topology,
    pub live: Topology,
    pub dirty: bool,
}

/// Staging a run of edits: they are applied to the pending topology; the
/// live one stays as it is.
pub open spec fn spec_stage(m: ProtocolModel, edits: Seq<Edit>) -> ProtocolModel {
    ProtocolModel {
        pending: spec_apply_all(m.pending, edits),
        live: m.live,
        dirty: m.dirty || spec_any_accepted(spec_outcomes(m.pending, edits)),
    }
}

/// Committing: if the pending topology was edited, the staged removals are
/// carried out and the result becomes the live topology, as a whole.
/// Otherwise nothing changes. The flag tells which.
pub open spec fn spec_commit(m: ProtocolModel) -> (ProtocolModel, bool) {
    if m.dirty {
        (
            ProtocolModel {
                pending: m.pending.spec_committed(),
                live: m.pending.spec_committed(),
                dirty: false,
            },
            true,
        )
    } else {
        (m, false)
    }
}

/// A snapshot that was replaced, kept until the render side has let go of
/// it. `replaced_in` is the number of the publication that replaced it.
#[derive(Debug)]
pub struct Retired {
    pub snapshot: GraphSnapshot,
    pub replaced_in: u64,
}

/// The retired snapshots that must still be kept when the render side has
/// reported that it reads publication `seen`: those replaced later.
pub open spec fn spec_kept(retired: Seq<Retired>, seen: u64) -> Seq<Retired>
    decreases retired.len(),
{
    if retired.len() == 0 {
        Seq::empty()
    } else if retired.last().replaced_in > seen {
        spec_kept(retired.drop_last(), seen).push(retired.last())
    } else {
        spec_kept(retired.drop_last(), seen)
    }
}

/// The control side of the bridge: the pending topology, the snapshot that
/// is live, and the snapshots that were replaced and wait to be released.
#[derive(Debug)]
pub struct CommitProtocol {
    /// The pending topology. The control side may edit it directly.
    pub store: GraphStore,
    /// The snapshot that the render side reads.
    pub live: GraphSnapshot,
    /// The number of publications so far.
    pub epoch: u64,
    /// The replaced snapshots that are still held, oldest first.
    pub retired: VecDeque<Retired>,
}

impl CommitProtocol {
    /// The invariant: the store and the live snapshot are consistent.
    pub open spec fn wf(&self) -> bool {
        self.store.wf() && self.live.wf()
    }

    /// The snapshot that the render side reads.
    pub open spec fn spec_live(&self) -> GraphSnapshot {
        self.live
    }

    /// The number of publications so far.
    pub open spec fn spec_epoch(&self) -> u64 {
        self.epoch
    }

    /// The replaced snapshots that are still held, oldest first.
    pub open spec fn spec_retired(&self) -> Seq<Retired> {
        self.retired@
    }

    /// The state of the protocol, as the model sees it.
    pub open spec fn model(&self) -> ProtocolModel {
        ProtocolModel { pending: self.store@, live: self.live@, dirty: self.store.spec_dirty() }
    }

    /// Where a node stands, by the pending topology and the live one.
    pub open spec fn spec_phase(pending: Topology, live: Topology, h: NodeHandle) -> NodePhase {
        if pending.busy(h) {
            NodePhase::PendingRemoval
        } else if !pending.known(h) {
            NodePhase::Removed
        } else if live.live(h) {
            NodePhase::Live
        } else {
            NodePhase::Uncommitted
        }
    }

    /// A protocol over an empty graph with `channels` output channels.
    pub fn new(channels: usize) -> (p: CommitProtocol)
        ensures
            p.wf(),
            p.store@ == Topology::empty(channels),
            p.spec_live()@ == Topology::empty(channels),
            !p.store.spec_dirty(),
            p.spec_epoch() == 0,
            p.spec_retired() == Seq::<Retired>::empty(),
    {
        CommitProtocol {
            store: GraphStore::new(channels),
            live: GraphSnapshot::empty(channels),
            epoch: 0,
            retired: VecDeque::new(),
        }
    }

    /// The snapshot that the render side reads.
    pub fn live(&self) -> (s: &GraphSnapshot)
        ensures
            *s == self.spec_live(),
    {
        &self.live
    }

    /// The number of publications so far.
    pub fn epoch(&self) -> (r: u64)
        ensures
            r == self.spec_epoch(),
    {
        self.epoch
    }

    /// The number of replaced snapshots that are still held.
    pub fn retired_len(&self) -> (r: usize)
        ensures
            r == self.spec_retired().len(),
    {
        self.retired.len()
    }

    /// Where a node stands.
    pub fn phase(&self, h: NodeHandle) -> (r: NodePhase)
        ensures
            r == Self::spec_phase(self.store@, self.spec_live()@, h),
    {
        match self.store.state_of(h) {
            None => NodePhase::Removed,
            Some(crate::topology::NodeState::PendingRemoval) => NodePhase::PendingRemoval,
            Some(_) => {
                if h.slot < self.live.nodes.len() && self.live.nodes[h.slot].generation
                    == h.generation && self.live.nodes[h.slot].state
                    == crate::topology::NodeState::Live {
                    NodePhase::Live
                } else {
                    NodePhase::Uncommitted
                }
            },
        }
    }

    fn apply(&mut self, e: Edit) -> (o: EditOutcome)
        requires
            old(self).store.wf(),
        ensures
            final(self).store.wf(),
            final(self).store@ == spec_apply(old(self).store@, e).0,
            o == spec_apply(old(self).store@, e).1,
            final(self).store.spec_dirty() == (old(self).store.spec_dirty() || !(o is Rejected)),
            final(self).live == old(self).live,
            final(self).epoch == old(self).epoch,
            final(self).retired == old(self).retired,
    {
        match e {
            Edit::AddNode(d) => {
                let h = self.store.add_node(d);
                EditOutcome::Added(h)
            },
            Edit::RemoveNode(h) => match self.store.remove_node(h) {
                Ok(()) => EditOutcome::Applied,
                Err(err) => EditOutcome::Rejected(err),
            },
            Edit::Connect(c) => match self.store.connect(&c) {
                Ok(()) => EditOutcome::Applied,
                Err(err) => EditOutcome::Rejected(err),
            },
            Edit::Disconnect(c) => match self.store.disconnect(&c) {
                Ok(()) => EditOutcome::Applied,
                Err(err) => EditOutcome::Rejected(err),
            },
        }
    }

    /// Applies every queued edit to the pending topology, oldest first, and
    /// reports what became of each. An edit that is refused is dropped; the
    /// edits behind it still apply. The live snapshot is not touched.
    pub fn stage_pending_edits(&mut self, edits: &mut ChangeQueue<Edit>) -> (outcomes: Vec<
        EditOutcome,
    >)
        requires
            old(self).wf(),
        ensures
            final(self).wf(),
            final(self).model() == spec_stage(old(self).model(), old(edits)@),
            final(self).store@ == spec_apply_all(old(self).store@, old(edits)@),
            outcomes@ == spec_outcomes(old(self).store@, old(edits)@),
            final(self).store.spec_dirty() == (old(self).store.spec_dirty() || spec_any_accepted(
                outcomes@,
            )),
            final(self).spec_live() == old(self).spec_live(),
            final(self).spec_epoch() == old(self).spec_epoch(),
            final(self).spec_retired() == old(self).spec_retired(),
            final(edits)@.len() == 0,
            final(edits).spec_capacity() == old(edits).spec_capacity(),
    {
        let ghost t0 = self.store@;
        let ghost all = edits@;
        let ghost d0 = self.store.spec_dirty();
        let mut outcomes: Vec<EditOutcome> = Vec::new();
        proof {
            assert(outcomes@ + spec_outcomes(t0, all) =~= spec_outcomes(t0, all));
        }
        while edits.len() > 0
            invariant
                self.store.wf(),
                self.live.wf(),
                self.live == old(self).live,
                self.epoch == old(self).epoch,
                self.retired == old(self).retired,
                edits.spec_capacity() == old(edits).spec_capacity(),
                spec_apply_all(self.store@, edits@) == spec_apply_all(t0, all),
                outcomes@ + spec_outcomes(self.store@, edits@) == spec_outcomes(t0, all),
                self.store.spec_dirty() == (d0 || spec_any_accepted(outcomes@)),
            decreases edits@.len(),
        {
            let ghost before = outcomes@;
            let ghost t = self.store@;
            let ghost waiting = edits@;
            match edits.dequeue() {
                Some(e) => {
                    let o = self.apply(e);
                    outcomes.push(o);
                    proof {
                        assert(e == waiting.first());
                        assert(outcomes@ + spec_outcomes(self.store@, edits@) =~= before
                            + spec_outcomes(t, waiting));
                        if spec_any_accepted(before) {
                            let i = choose|i: int|
                                0 <= i < before.len() && !(#[trigger] before[i] is Rejected);
                            assert(!(outcomes@[i] is Rejected));
                        }
                        if !(o is Rejected) {
                            assert(!(outcomes@[before.len() as int] is Rejected));
                        }
                        if spec_any_accepted(outcomes@) {
                            let i = choose|i: int|
                                0 <= i < outcomes@.len() && !(#[trigger] outcomes@[i] is Rejected);
                            if i < before.len() {
                                assert(!(before[i] is Rejected));
                            }
                        }
                    }
                },
                None => {},
            }
        }
        proof {
            assert(outcomes@ + spec_outcomes(self.store@, edits@) =~= outcomes@);
        }
        outcomes
    }

    /// Publishes the pending topology if it was edited since the last
    /// publication, and tells whether it did. The new snapshot replaces the
    /// live one as a whole; the replaced one is kept until it is released.
    /// With nothing to publish, nothing changes.
    pub fn commit(&mut self) -> (changed: bool)
        requires
            old(self).wf(),
            old(self).spec_epoch() < u64::MAX,
        ensures
            final(self).wf(),
            (final(self).model(), changed) == spec_commit(old(self).model()),
            changed == old(self).store.spec_dirty(),
            !final(self).store.spec_dirty(),
            changed ==> {
                &&& final(self).store@ == old(self).store@.spec_committed()
                &&& final(self).spec_live()@ == final(self).store@
                &&& final(self).spec_epoch() == old(self).spec_epoch() + 1
                &&& final(self).spec_retired() == old(self).spec_retired().push(
                    Retired {
                        snapshot: old(self).spec_live(),
                        replaced_in: final(self).spec_epoch(),
                    },
                )
            },
            !changed ==> {
                &&& final(self).store@ == old(self).store@
                &&& final(self).spec_live() == old(self).spec_live()
                &&& final(self).spec_epoch() == old(self).spec_epoch()
                &&& final(self).spec_retired() == old(self).spec_retired()
            },
    {
        if !self.store.is_dirty() {
            return false;
        }
        let mut snapshot = self.store.publish();
        std::mem::swap(&mut self.live, &mut snapshot);
        self.epoch = self.epoch + 1;
        self.retired.push_back(Retired { snapshot, replaced_in: self.epoch });
        true
    }

    /// Releases the replaced snapshots that the render side can no longer
    /// reach. `seen` is the number of the publication that the render side
    /// read at the start of its latest buffer. A snapshot replaced by that
    /// publication or an earlier one is released; one replaced later is
    /// kept. Returns how many were released.
    pub fn reclaim(&mut self, seen: u64) -> (released: usize)
        ensures
            final(self).store == old(self).store,
            final(self).spec_live() == old(self).spec_live(),
            final(self).spec_epoch() == old(self).spec_epoch(),
            final(self).spec_retired() == spec_kept(old(self).spec_retired(), seen),
            released == old(self).spec_retired().len() - final(self).spec_retired().len(),
    {
        let ghost all = self.retired@;
        let n = self.retired.len();
        let mut k: usize = 0;
        let mut released: usize = 0;
        proof {
            assert(all.take(0) =~= Seq::<Retired>::empty());
            assert(self.retired@ =~= all.subrange(0, n as int) + spec_kept(all.take(0), seen));
        }
        while k < n
            invariant
                k <= n,
                n == all.len(),
                self.store == old(self).store,
                self.live == old(self).live,
                self.epoch == old(self).epoch,
                self.retired@ == all.subrange(k as int, n as int) + spec_kept(
                    all.take(k as int),
                    seen,
                ),
                released + spec_kept(all.take(k as int), seen).len() == k,
            decreases n - k,
        {
            match self.retired.pop_front() {
                Some(r) => {
                    let ghost rest = self.retired@;
                    proof {
                        assert(r == all[k as int]);
                        assert(all.take(k + 1).drop_last() =~= all.take(k as int));
                        assert(all.take(k + 1).last() == r);
                        assert(rest =~= all.subrange(k + 1, n as int) + spec_kept(
                            all.take(k as int),
                            seen,
                        ));
                    }
                    if r.replaced_in > seen {
                        self.retired.push_back(r);
                        proof {
                            assert(self.retired@ =~= all.subrange(k + 1, n as int) + spec_kept(
                                all.take(k + 1),
                                seen,
                            ));
                        }
                    } else {
                        released = released + 1;
                    }
                },
                None => {},
            }
            k += 1;
        }
        proof {
            assert(all.take(n as int) =~= all);
            assert(self.retired@ =~= spec_kept(all, seen));
        }
        released
    }
}

/// A replaced snapshot is kept exactly as long as the render side may still
/// read it: it stays if it was replaced after the publication the render
/// side has reported, and is released otherwise.
pub proof fn lemma_kept(retired: Seq<Retired>, seen: u64)
    ensures
        forall|r: Retired| #[trigger]
            spec_kept(retired, seen).contains(r) <==> retired.contains(r) && r.replaced_in > seen,
        spec_kept(retired, seen).len() <= retired.len(),
    decreases retired.len(),
{
    if retired.len() > 0 {
        let rest = retired.drop_last();
        let before = spec_kept(rest, seen);
        let now = spec_kept(retired, seen);
        lemma_kept(rest, seen);
        assert forall|r: Retired| #[trigger]
            now.contains(r) <==> retired.contains(r) && r.replaced_in > seen by {
            if now.contains(r) {
                let i = choose|i: int| 0 <= i < now.len() && now[i] == r;
                if i < before.len() {
                    assert(before[i] == r);
                    assert(before.contains(r));
                    let j = choose|j: int| 0 <= j < rest.len() && rest[j] == r;
                    assert(retired[j] == r);
                } else {
                    assert(retired[retired.len() - 1] == r);
                }
            }
            if retired.contains(r) && r.replaced_in > seen {
                let j = choose|j: int| 0 <= j < retired.len() && retired[j] == r;
                if j < rest.len() {
                    assert(rest[j] == r);
                    assert(rest.contains(r));
                    assert(before.contains(r));
                    let i = choose|i: int| 0 <= i < before.len() && before[i] == r;
                    assert(now[i] == r);
                } else {
                    assert(now[before.len() as int] == r);
                }
            }
        }
    }
}

/// Committing, staging no edit and committing again: the second commit
/// reports no change, and leaves what the first one left.
pub proof fn lemma_commit_twice(m: ProtocolModel)
    ensures
        !spec_commit(spec_stage(spec_commit(m).0, Seq::<Edit>::empty())).1,
        spec_commit(spec_stage(spec_commit(m).0, Seq::<Edit>::empty())).0 == spec_commit(m).0,
        !spec_commit(spec_commit(m).0).1,
{
}

/// Whatever is staged, the live topology stays as it is until a commit: an
/// edit that is refused, or accepted, never shows on the render side
/// before.
pub proof fn lemma_stage_keeps_live(m: ProtocolModel, edits: Seq<Edit>)
    ensures
        spec_stage(m, edits).live == m.live,
{
}

/// Every staged edit has its outcome.
pub proof fn lemma_outcomes_len(t: Topology, edits: Seq<Edit>)
    ensures
        spec_outcomes(t, edits).len() == edits.len(),
    decreases edits.len(),
{
    if edits.len() > 0 {
        lemma_outcomes_len(spec_apply(t, edits.first()).0, edits.drop_first());
    }
}

/// Staging no edits changes nothing and accepts nothing, so it leaves a
/// clean store clean: a commit after it reports no change.
pub proof fn lemma_stage_nothing(t: Topology)
    ensures
        spec_apply_all(t, Seq::<Edit>::empty()) == t,
        spec_outcomes(t, Seq::<Edit>::empty()) == Seq::<EditOutcome>::empty(),
        !spec_any_accepted(spec_outcomes(t, Seq::<Edit>::empty())),
{
}

/// One edit keeps a well-formed, acyclic topology well formed and acyclic.
/// A stale handle stays stale, whatever the edit.
pub proof fn lemma_apply_sound(t: Topology, e: Edit)
    requires
        t.well_formed(),
        t.acyclic(),
        t.nodes.len() < usize::MAX,
    ensures
        spec_apply(t, e).0.well_formed(),
        spec_apply(t, e).0.acyclic(),
        spec_apply(t, e).0.nodes.len() <= t.nodes.len() + 1,
        forall|g: NodeHandle| t.stale(g) ==> spec_apply(t, e).0.stale(g),
{
    match e {
        Edit::AddNode(d) => {
            lemma_add_node_sound(t, spec_names(d.inputs@), d.outputs);
        },
        Edit::RemoveNode(h) => {
            if t.spec_remove_node(h) is Ok {
                lemma_remove_node_sound(t, h);
            }
        },
        Edit::Connect(c) => {
            if t.spec_connect(c) is Ok {
                lemma_connect_sound(t, c);
            }
        },
        Edit::Disconnect(c) => {
            if t.spec_disconnect(c) is Ok {
                lemma_disconnect_sound(t, c);
            }
        },
    }
}

/// Whatever edits are staged, in whatever order, and whichever of them are
/// refused: the topology that a commit then publishes is well formed and
/// acyclic. Every connection of it joins ports of nodes that are live in
/// it, so the render side never meets a connection that is half applied.
pub proof fn lemma_published_topology_sound(t: Topology, edits: Seq<Edit>)
    requires
        t.well_formed(),
        t.acyclic(),
        t.nodes.len() + edits.len() <= usize::MAX,
    ensures
        spec_apply_all(t, edits).well_formed(),
        spec_apply_all(t, edits).acyclic(),
        spec_apply_all(t, edits).spec_committed().well_formed(),
        spec_apply_all(t, edits).spec_committed().acyclic(),
        forall|g: NodeHandle| t.stale(g) ==> spec_apply_all(t, edits).spec_committed().stale(g),
    decreases edits.len(),
{
    if edits.len() > 0 {
        lemma_apply_sound(t, edits.first());
        lemma_published_topology_sound(spec_apply(t, edits.first()).0, edits.drop_first());
    } else {
        lemma_committed_sound(t);
    }
}

/// The connections after a run of connects and disconnects: each one that
/// stands for an edge adds or takes that edge, in order.
pub open spec fn spec_edges_after(t: Topology, edges: Set<Edge>, edits: Seq<Edit>) -> Set<Edge>
    decreases edits.len(),
{
    if edits.len() == 0 {
        edges
    } else {
        let next = match edits.first() {
            Edit::Connect(c) => edges.insert(t.spec_edge_of(c)->Ok_0),
            Edit::Disconnect(c) => edges.remove(t.spec_edge_of(c)->Ok_0),
            _ => edges,
        };
        spec_edges_after(t, next, edits.drop_first())
    }
}

/// Every edit of the run is a connect or a disconnect, and none is refused
/// when the run is staged on `t`.
pub open spec fn spec_all_rewire(t: Topology, edits: Seq<Edit>) -> bool {
    forall|i: int|
        0 <= i < edits.len() ==> ((#[trigger] edits[i]) is Connect || edits[i] is Disconnect)
            && spec_outcomes(t, edits)[i] == EditOutcome::Applied
}

/// After a run of connects and disconnects of which none closes a cycle or
/// is refused otherwise, the published topology has the nodes it had and
/// exactly the connections that the run leaves: every edit of the run is in
/// it, none in part.
pub proof fn lemma_rewiring_is_published_whole(t: Topology, edits: Seq<Edit>)
    requires
        t.well_formed(),
        t.acyclic(),
        spec_all_rewire(t, edits),
    ensures
        spec_apply_all(t, edits).nodes == t.nodes,
        spec_apply_all(t, edits).edges == spec_edges_after(t, t.edges, edits),
        spec_apply_all(t, edits).spec_committed().edges == spec_edges_after(t, t.edges, edits),
        spec_apply_all(t, edits).spec_committed().well_formed(),
        spec_apply_all(t, edits).spec_committed().acyclic(),
{
    lemma_rewiring_steps(t, t, edits);
    lemma_committed_sound(spec_apply_all(t, edits));
}

proof fn lemma_rewiring_steps(t0: Topology, t: Topology, edits: Seq<Edit>)
    requires
        t.well_formed(),
        t.acyclic(),
        t.nodes == t0.nodes,
        t.channels == t0.channels,
        spec_all_rewire(t, edits),
    ensures
        spec_apply_all(t, edits).nodes == t0.nodes,
        spec_apply_all(t, edits).edges == spec_edges_after(t0, t.edges, edits),
        spec_apply_all(t, edits).well_formed(),
        spec_apply_all(t, edits).acyclic(),
    decreases edits.len(),
{
    if edits.len() > 0 {
        let e = edits.first();
        let t2 = spec_apply(t, e).0;
        let rest = edits.drop_first();
        lemma_outcomes_len(t2, rest);
        assert(edits[0] is Connect || edits[0] is Disconnect);
        assert(spec_outcomes(t, edits)[0] == EditOutcome::Applied);
        assert(spec_apply(t, e).1 == EditOutcome::Applied);
        match e {
            Edit::Connect(c) => {
                lemma_connect_sound(t, c);
                assert(t.spec_edge_of(c) == t0.spec_edge_of(c));
            },
            Edit::Disconnect(c) => {
                lemma_disconnect_sound(t, c);
                assert(t.spec_edge_of(c) == t0.spec_edge_of(c));
            },
            _ => {},
        }
        lemma_outcomes_len(t, edits);
        lemma_outcomes_len(t2, rest);
        assert forall|i: int| 0 <= i < rest.len() implies ((#[trigger] rest[i]) is Connect
            || rest[i] is Disconnect) && spec_outcomes(t2, rest)[i] == EditOutcome::Applied by {
            assert(rest[i] == edits[i + 1]);
            assert(spec_outcomes(t, edits)[i + 1] == spec_outcomes(t2, rest)[i]);
        }
        lemma_rewiring_steps(t0, t2, rest);
    }
}

/// Once the removal of a node is staged, a connection that names the node,
/// at either end, is refused: as busy until the removal is published, as
/// unknown from then on. Nothing is changed by the refusal.
pub proof fn lemma_removed_node_is_refused(t: Topology, h: NodeHandle, c: Connection)
    requires
        t.well_formed(),
        t.acyclic(),
        t.spec_remove_node(h) is Ok,
        c.source == h || (c.sink matches Sink::Node { node, .. } && node == h),
    ensures
        t.spec_remove_node(h)->Ok_0.spec_connect(c) is Err,
        t.spec_remove_node(h)->Ok_0.spec_connect(c)->Err_0 == GraphError::NodeBusy
            || t.spec_remove_node(h)->Ok_0.spec_connect(c)->Err_0 == GraphError::UnknownNode,
        t.spec_remove_node(h)->Ok_0.spec_committed().spec_connect(c) == Err::<
            Topology,
            GraphError,
        >(GraphError::UnknownNode),
        t.spec_remove_node(h)->Ok_0.spec_committed().spec_disconnect(c) == Err::<
            Topology,
            GraphError,
        >(GraphError::UnknownNode),
        spec_apply(t.spec_remove_node(h)->Ok_0.spec_committed(), Edit::Connect(c)).0
            == t.spec_remove_node(h)->Ok_0.spec_committed(),
{
    lemma_remove_node_sound(t, h);
}

/// A stale handle names no node: every edit that uses it is refused as
/// unknown.
pub proof fn lemma_stale_is_unknown(t: Topology, h: NodeHandle, c: Connection)
    requires
        t.stale(h),
    ensures
        !t.known(h),
        t.spec_remove_node(h) == Err::<Topology, GraphError>(GraphError::UnknownNode),
        c.source == h || (c.sink matches Sink::Node { node, .. } && node == h) ==> t.spec_connect(
            c,
        ) == Err::<Topology, GraphError>(GraphError::UnknownNode),
{
}

/// Staging a run of connects and disconnects, of which none closes a cycle
/// or is refused otherwise, and committing: the commit reports a change, and
/// the live topology then has exactly the connections that the run leaves,
/// joins only ports that exist, and is acyclic.
pub proof fn lemma_rewiring_commit(m: ProtocolModel, edits: Seq<Edit>)
    requires
        m.pending.well_formed(),
        m.pending.acyclic(),
        spec_all_rewire(m.pending, edits),
        edits.len() > 0,
    ensures
        spec_commit(spec_stage(m, edits)).1,
        spec_commit(spec_stage(m, edits)).0.live.edges == spec_edges_after(
            m.pending,
            m.pending.edges,
            edits,
        ),
        spec_commit(spec_stage(m, edits)).0.live.nodes == m.pending.spec_committed().nodes,
        spec_commit(spec_stage(m, edits)).0.live.well_formed(),
        spec_commit(spec_stage(m, edits)).0.live.acyclic(),
{
    lemma_rewiring_is_published_whole(m.pending, edits);
    lemma_outcomes_len(m.pending, edits);
    assert(!(spec_outcomes(m.pending, edits)[0] is Rejected));
    assert(spec_apply_all(m.pending, edits).spec_committed().nodes
        =~= m.pending.spec_committed().nodes);
}

} // verus!
