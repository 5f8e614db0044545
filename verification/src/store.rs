//! The graph store: the pending topology that the control side edits, and
//! the snapshots it publishes.

use vstd::prelude::*;
use crate::handle::NodeHandle;
use crate::order::{sort_nodes, spec_topology, NodeRecord};
use crate::topology::{
    is_first_position, is_topological_order, lemma_acyclic_rejects_closing, lemma_edge_keeps_acyclic,
    lemma_order_gives_ranking, lemma_order_push, lemma_order_remove,
    spec_input_index, spec_names, spec_touches,
    Connection, Edge, GraphError, InputSelector, NodeState, Port, Sink, Topology,
    UnitDescriptor,
};

verus! {

/// An immutable copy of a topology, with the order in which its nodes are to
/// be rendered. The render side reads it without reaching into the store.
#[derive(Debug)]
pub struct GraphSnapshot {
    pub nodes: Vec<NodeRecord>,
    pub edges: Vec<Edge>,
    pub order: Vec<usize>,
    pub channels: usize,
}

impl View for GraphSnapshot {
    type V = Topology;

    open spec fn view(&self) -> Topology {
        spec_topology(self.nodes@, self.edges@, self.channels)
    }
}

impl GraphSnapshot {
    /// The snapshot is consistent: its connections join live nodes, no
    /// removal is half done, and its order puts sources before consumers.
    pub open spec fn wf(&self) -> bool {
        &&& self@.well_formed()
        &&& is_topological_order(self.order@, self@)
        &&& forall|i: int|
            0 <= i < self.nodes.len() ==> (#[trigger] self.nodes[i]).state
                != NodeState::PendingRemoval
    }

    /// The snapshot of a graph without nodes.
    pub fn empty(channels: usize) -> (s: GraphSnapshot)
        ensures
            s.wf(),
            s@ == Topology::empty(channels),
            s.order@.len() == 0,
    {
        let s = GraphSnapshot { nodes: Vec::new(), edges: Vec::new(), order: Vec::new(), channels };
        proof {
            assert(s@.nodes =~= Topology::empty(channels).nodes);
            assert(s@.edges =~= Topology::empty(channels).edges);
        }
        s
    }
}

/// The pending topology. Only the control side touches it; nothing here is
/// seen by the render side before a snapshot is published.
#[derive(Debug)]
pub struct GraphStore {
    slots: Vec<NodeRecord>,
    edges: Vec<Edge>,
    order: Vec<usize>,
    channels: usize,
    dirty: bool,
}

impl View for GraphStore {
    type V = Topology;

    closed spec fn view(&self) -> Topology {
        spec_topology(self.slots@, self.edges@, self.channels)
    }
}

fn copy_names(v: &Vec<String>) -> (r: Vec<String>)
    ensures
        spec_names(r@) == spec_names(v@),
{
    let mut r: Vec<String> = Vec::new();
    let mut i: usize = 0;
    while i < v.len()
        invariant
            i <= v.len(),
            r.len() == i,
            forall|j: int| 0 <= j < i ==> r[j]@ == v[j]@,
        decreases v.len() - i,
    {
        r.push(v[i].clone());
        i += 1;
    }
    assert(spec_names(r@) =~= spec_names(v@));
    r
}

fn copy_edges(v: &Vec<Edge>) -> (r: Vec<Edge>)
    ensures
        r@ == v@,
{
    let mut r: Vec<Edge> = Vec::new();
    let mut i: usize = 0;
    while i < v.len()
        invariant
            i <= v.len(),
            r.len() == i,
            forall|j: int| 0 <= j < i ==> r[j] == v[j],
        decreases v.len() - i,
    {
        r.push(v[i]);
        i += 1;
    }
    assert(r@ =~= v@);
    r
}

fn copy_order(v: &Vec<usize>) -> (r: Vec<usize>)
    ensures
        r@ == v@,
{
    let mut r: Vec<usize> = Vec::new();
    let mut i: usize = 0;
    while i < v.len()
        invariant
            i <= v.len(),
            r.len() == i,
            forall|j: int| 0 <= j < i ==> r[j] == v[j],
        decreases v.len() - i,
    {
        r.push(v[i]);
        i += 1;
    }
    assert(r@ =~= v@);
    r
}

fn set_state(slots: &mut Vec<NodeRecord>, i: usize, state: NodeState)
    requires
        i < old(slots).len(),
    ensures
        final(slots).len() == old(slots).len(),
        forall|j: int| 0 <= j < old(slots).len() && j != i ==> final(slots)[j] == old(slots)[j],
        final(slots)[i as int] == (NodeRecord { state, ..old(slots)[i as int] }),
{
    let mut record = NodeRecord { generation: 0, state, inputs: Vec::new(), outputs: 0 };
    slots.set_and_swap(i, &mut record);
    record.state = state;
    slots.set(i, record);
}

/// The input that a selector picks among the declared names.
pub fn resolve_input(inputs: &Vec<String>, sel: &InputSelector) -> (r: Option<usize>)
    ensures
        r == spec_input_index(spec_names(inputs@), *sel),
{
    match sel {
        InputSelector::Index(i) => {
            if *i < inputs.len() {
                Some(*i)
            } else {
                None
            }
        },
        InputSelector::Name(name) => {
            let ghost names = spec_names(inputs@);
            let mut k: usize = 0;
            while k < inputs.len()
                invariant
                    k <= inputs.len(),
                    names == spec_names(inputs@),
                    *sel == InputSelector::Name(*name),
                    forall|j: int| 0 <= j < k ==> names[j] != name@,
                decreases inputs.len() - k,
            {
                if inputs[k] == *name {
                    proof {
                        assert(is_first_position(names, name@, k as int));
                        let first = choose|i: int| is_first_position(names, name@, i);
                        assert(first == k);
                        assert(*sel matches InputSelector::Name(n) && n@ == name@);
                    }
                    return Some(k);
                }
                k += 1;
            }
            None
        },
    }
}

fn find_edge(edges: &Vec<Edge>, e: Edge) -> (r: Option<usize>)
    ensures
        match r {
            Some(i) => i < edges.len() && edges[i as int] == e,
            None => !edges@.contains(e),
        },
{
    let mut k: usize = 0;
    while k < edges.len()
        invariant
            k <= edges.len(),
            forall|j: int| 0 <= j < k ==> edges[j] != e,
        decreases edges.len() - k,
    {
        if edges[k] == e {
            return Some(k);
        }
        k += 1;
    }
    None
}

fn find_slot(order: &Vec<usize>, slot: usize) -> (r: usize)
    requires
        order@.contains(slot),
    ensures
        r < order.len(),
        order[r as int] == slot,
{
    let mut k: usize = 0;
    while k < order.len()
        invariant
            k <= order.len(),
            order@.contains(slot),
            forall|j: int| 0 <= j < k ==> order[j] != slot,
        decreases order.len() - k,
    {
        if order[k] == slot {
            return k;
        }
        k += 1;
    }
    proof {
        let j = choose|j: int| 0 <= j < order.len() && order[j] == slot;
        assert(false);
    }
    0
}

proof fn lemma_push_edge(edges: Seq<Edge>, e: Edge)
    ensures
        edges.push(e).to_set() == edges.to_set().insert(e),
{
    assert forall|x: Edge| edges.push(e).to_set().contains(x) <==> edges.to_set().insert(
        e,
    ).contains(x) by {
        if edges.push(e).contains(x) {
            let i = choose|i: int| 0 <= i < edges.push(e).len() && edges.push(e)[i] == x;
            if i < edges.len() {
                assert(edges[i] == x);
                assert(edges.contains(x));
            }
        }
        if edges.contains(x) {
            let i = choose|i: int| 0 <= i < edges.len() && edges[i] == x;
            assert(edges.push(e)[i] == x);
        }
        if x == e {
            assert(edges.push(e)[edges.len() as int] == x);
        }
    }
    assert(edges.push(e).to_set() =~= edges.to_set().insert(e));
}

proof fn lemma_remove_edge(edges: Seq<Edge>, i: int)
    requires
        edges.no_duplicates(),
        0 <= i < edges.len(),
    ensures
        edges.remove(i).to_set() == edges.to_set().remove(edges[i]),
        edges.remove(i).no_duplicates(),
{
    let r = edges.remove(i);
    assert forall|a: int| 0 <= a < r.len() implies r[a] == edges[if a < i {
        a
    } else {
        a + 1
    }] by {}
    assert forall|x: Edge| r.to_set().contains(x) <==> edges.to_set().remove(edges[i]).contains(
        x,
    ) by {
        if r.contains(x) {
            let a = choose|a: int| 0 <= a < r.len() && r[a] == x;
            let a1 = if a < i {
                a
            } else {
                a + 1
            };
            assert(edges[a1] == x);
            assert(edges.contains(x));
        }
        if edges.contains(x) && x != edges[i] {
            let a1 = choose|a1: int| 0 <= a1 < edges.len() && edges[a1] == x;
            let a = if a1 < i {
                a1
            } else {
                a1 - 1
            };
            assert(r[a] == x);
        }
    }
    assert(r.to_set() =~= edges.to_set().remove(edges[i]));
    assert forall|a: int, b: int| 0 <= a < r.len() && 0 <= b < r.len() && a != b implies r[a]
        != r[b] by {
        let a1 = if a < i {
            a
        } else {
            a + 1
        };
        let b1 = if b < i {
            b
        } else {
            b + 1
        };
        assert(edges[a1] != edges[b1]);
    }
}

impl GraphStore {
    /// The store's invariant: no connection is held twice, every connection
    /// joins ports of live nodes, and the stored order puts sources before
    /// consumers.
    pub closed spec fn wf(&self) -> bool {
        &&& self.edges@.no_duplicates()
        &&& self@.well_formed()
        &&& is_topological_order(self.order@, self@)
    }

    /// Whether the pending topology was edited since the last publication.
    pub closed spec fn spec_dirty(&self) -> bool {
        self.dirty
    }

    /// A well-formed store holds a well-formed, acyclic topology.
    pub proof fn lemma_wf_acyclic(&self)
        requires
            self.wf(),
        ensures
            self@.well_formed(),
            self@.acyclic(),
    {
        lemma_order_gives_ranking(self.order@, self@);
    }

    /// A store without nodes, for a graph with `channels` output channels.
    pub fn new(channels: usize) -> (s: GraphStore)
        ensures
            s.wf(),
            s@ == Topology::empty(channels),
            !s.spec_dirty(),
    {
        let s = GraphStore {
            slots: Vec::new(),
            edges: Vec::new(),
            order: Vec::new(),
            channels,
            dirty: false,
        };
        proof {
            assert(s@.nodes =~= Topology::empty(channels).nodes);
            assert(s@.edges =~= Topology::empty(channels).edges);
        }
        s
    }

    /// Whether the pending topology was edited since the last publication.
    pub fn is_dirty(&self) -> (r: bool)
        ensures
            r == self.spec_dirty(),
    {
        self.dirty
    }

    /// The state of the node that a handle names, if it names one.
    pub fn state_of(&self, h: NodeHandle) -> (r: Option<NodeState>)
        ensures
            r == if self@.known(h) {
                Some(self@.nodes[h.slot as int].state)
            } else {
                None
            },
    {
        if h.slot >= self.slots.len() {
            return None;
        }
        let record = &self.slots[h.slot];
        if record.generation != h.generation || record.state == NodeState::Vacant {
            None
        } else {
            Some(record.state)
        }
    }

    fn find_reusable(&self) -> (r: Option<usize>)
        ensures
            match r {
                Some(i) => self@.first_reusable(i as int),
                None => forall|s: int| !self@.reusable(s),
            },
    {
        let mut i: usize = 0;
        while i < self.slots.len()
            invariant
                i <= self.slots.len(),
                forall|k: int| 0 <= k < i ==> !self@.reusable(k),
            decreases self.slots.len() - i,
        {
            if self.slots[i].state == NodeState::Vacant && self.slots[i].generation < u64::MAX {
                return Some(i);
            }
            i += 1;
        }
        None
    }

    /// Adds a node to the pending topology and hands out its handle. A
    /// vacant slot is taken again under a new generation, so that handles to
    /// the node that lived there before stay unknown.
    pub fn add_node(&mut self, descriptor: UnitDescriptor) -> (h: NodeHandle)
        requires
            old(self).wf(),
        ensures
            final(self).wf(),
            h == old(self)@.spec_next_handle(),
            final(self)@ == old(self)@.spec_add_node(
                spec_names(descriptor.inputs@),
                descriptor.outputs,
            ),
            final(self)@.live(h),
            !old(self)@.known(h),
            final(self).spec_dirty(),
    {
        let ghost t = self@;
        let found = self.find_reusable();
        let h = match found {
            Some(i) => {
                proof {
                    assert forall|s: int| t.first_reusable(s) implies s == i by {}
                }
                let generation = self.slots[i].generation + 1;
                self.slots.set(
                    i,
                    NodeRecord {
                        generation,
                        state: NodeState::Live,
                        inputs: descriptor.inputs,
                        outputs: descriptor.outputs,
                    },
                );
                self.order.push(i);
                NodeHandle { slot: i, generation }
            },
            None => {
                let n = self.slots.len();
                self.slots.push(
                    NodeRecord {
                        generation: 0,
                        state: NodeState::Live,
                        inputs: descriptor.inputs,
                        outputs: descriptor.outputs,
                    },
                );
                self.order.push(n);
                NodeHandle { slot: n, generation: 0 }
            },
        };
        self.dirty = true;
        proof {
            let t2 = self@;
            let expect = t.spec_add_node(spec_names(descriptor.inputs@), descriptor.outputs);
            assert(h == t.spec_next_handle());
            assert(t2.nodes.len() == self.slots.len() <= usize::MAX);
            assert(t2.nodes =~= expect.nodes);
            assert(t2.edges =~= expect.edges);
            assert forall|e: Edge| #[trigger] t2.edges.contains(e) implies t2.edge_fits(e) by {
                assert(t.edge_fits(e));
            }
            lemma_order_push(old(self).order@, h.slot, t, t2);
        }
        h
    }

    /// Stages the removal of a node. Its connections leave the pending
    /// topology at once; the node stays busy until the next publication.
    pub fn remove_node(&mut self, h: NodeHandle) -> (r: Result<(), GraphError>)
        requires
            old(self).wf(),
        ensures
            final(self).wf(),
            match old(self)@.spec_remove_node(h) {
                Ok(t) => r is Ok && final(self)@ == t && final(self).spec_dirty(),
                Err(e) => r == Err::<(), GraphError>(e) && final(self)@ == old(self)@
                    && final(self).spec_dirty() == old(self).spec_dirty(),
            },
    {
        let ghost t = self@;
        match self.state_of(h) {
            None => {
                return Err(GraphError::UnknownNode);
            },
            Some(NodeState::PendingRemoval) => {
                return Err(GraphError::NodeBusy);
            },
            Some(_) => {},
        }
        set_state(&mut self.slots, h.slot, NodeState::PendingRemoval);
        let mut kept: Vec<Edge> = Vec::new();
        let mut k: usize = 0;
        while k < self.edges.len()
            invariant
                k <= self.edges.len(),
                self.edges@ == old(self).edges@,
                self.edges@.no_duplicates(),
                kept@.no_duplicates(),
                forall|x: Edge|
                    #[trigger] kept@.contains(x) <==> (exists|q: int|
                        0 <= q < k && self.edges[q] == x && !spec_touches(x, h.slot)),
            decreases self.edges.len() - k,
        {
            let e = self.edges[k];
            let into = match e.to {
                Port::Input { slot, index } => slot == h.slot,
                Port::Output { channel } => false,
            };
            if e.source != h.slot && !into {
                let ghost before = kept@;
                kept.push(e);
                proof {
                    assert(!before.contains(e));
                    assert forall|a: int, b: int|
                        0 <= a < kept@.len() && 0 <= b < kept@.len() && a != b implies kept@[a]
                        != kept@[b] by {
                        if a < before.len() {
                            assert(before.contains(before[a]));
                        }
                        if b < before.len() {
                            assert(before.contains(before[b]));
                        }
                    }
                    assert forall|x: Edge|
                        #[trigger] kept@.contains(x) <==> (exists|q: int|
                            0 <= q < k + 1 && self.edges[q] == x && !spec_touches(x, h.slot)) by {
                        if kept@.contains(x) {
                            let a = choose|a: int| 0 <= a < kept@.len() && kept@[a] == x;
                            if a < before.len() {
                                assert(before.contains(x));
                            } else {
                                assert(self.edges[k as int] == x);
                            }
                        }
                        if exists|q: int|
                            0 <= q < k + 1 && self.edges[q] == x && !spec_touches(x, h.slot) {
                            let q = choose|q: int|
                                0 <= q < k + 1 && self.edges[q] == x && !spec_touches(x, h.slot);
                            if q < k {
                                assert(before.contains(x));
                                let a = choose|a: int| 0 <= a < before.len() && before[a] == x;
                                assert(kept@[a] == x);
                            } else {
                                assert(kept@[before.len() as int] == x);
                            }
                        }
                    }
                }
            } else {
                proof {
                    assert(spec_touches(e, h.slot));
                }
            }
            k += 1;
        }
        self.edges = kept;
        proof {
            assert(old(self).order@.contains(h.slot));
        }
        let idx = find_slot(&self.order, h.slot);
        self.order.remove(idx);
        self.dirty = true;
        proof {
            let t2 = self@;
            let expect = t.spec_remove_node(h)->Ok_0;
            assert(t2.nodes =~= expect.nodes);
            assert forall|x: Edge| t2.edges.contains(x) <==> expect.edges.contains(x) by {
                if self.edges@.contains(x) {
                    let q = choose|q: int|
                        0 <= q < old(self).edges.len() && old(self).edges[q] == x && !spec_touches(
                            x,
                            h.slot,
                        );
                    assert(old(self).edges@.contains(x));
                }
                if old(self).edges@.contains(x) && !spec_touches(x, h.slot) {
                    let q = choose|q: int| 0 <= q < old(self).edges.len() && old(self).edges[q] == x;
                    assert(self.edges@.contains(x));
                }
            }
            assert(t2.edges =~= expect.edges);
            assert forall|e: Edge| #[trigger] t2.edges.contains(e) implies t2.edge_fits(e) by {
                assert(t.edges.contains(e));
                assert(t.edge_fits(e));
            }
            lemma_order_remove(old(self).order@, idx as int, t, t2);
        }
        Ok(())
    }

    /// The edge that a connection stands for in the pending topology.
    pub fn resolve(&self, c: &Connection) -> (r: Result<Edge, GraphError>)
        ensures
            r == self@.spec_edge_of(*c),
    {
        let source = self.state_of(c.source);
        if source.is_none() {
            return Err(GraphError::UnknownNode);
        }
        match &c.sink {
            Sink::GraphOutput { channel } => {
                if source == Some(NodeState::PendingRemoval) {
                    return Err(GraphError::NodeBusy);
                }
                if c.output >= self.slots[c.source.slot].outputs {
                    return Err(GraphError::InvalidInputSelector);
                }
                if *channel < self.channels {
                    Ok(
                        Edge {
                            source: c.source.slot,
                            output: c.output,
                            to: Port::Output { channel: *channel },
                        },
                    )
                } else {
                    Err(GraphError::InvalidInputSelector)
                }
            },
            Sink::Node { node, input } => {
                let sink = self.state_of(*node);
                if sink.is_none() {
                    return Err(GraphError::UnknownNode);
                }
                if source == Some(NodeState::PendingRemoval) || sink == Some(
                    NodeState::PendingRemoval,
                ) {
                    return Err(GraphError::NodeBusy);
                }
                if c.output >= self.slots[c.source.slot].outputs {
                    return Err(GraphError::InvalidInputSelector);
                }
                match resolve_input(&self.slots[node.slot].inputs, input) {
                    Some(index) => Ok(
                        Edge {
                            source: c.source.slot,
                            output: c.output,
                            to: Port::Input { slot: node.slot, index },
                        },
                    ),
                    None => Err(GraphError::InvalidInputSelector),
                }
            },
        }
    }

    /// Adds a connection to the pending topology, unless it names a node or
    /// port that does not exist or would close a cycle. A connection that is
    /// already there is accepted and changes nothing.
    pub fn connect(&mut self, c: &Connection) -> (r: Result<(), GraphError>)
        requires
            old(self).wf(),
        ensures
            final(self).wf(),
            match old(self)@.spec_connect(*c) {
                Ok(t) => r is Ok && final(self)@ == t && final(self).spec_dirty(),
                Err(e) => r == Err::<(), GraphError>(e) && final(self)@ == old(self)@
                    && final(self).spec_dirty() == old(self).spec_dirty(),
            },
    {
        let ghost t = self@;
        let e = match self.resolve(c) {
            Err(err) => {
                return Err(err);
            },
            Ok(e) => e,
        };
        if find_edge(&self.edges, e).is_some() {
            proof {
                assert(t.with_edge(e).edges =~= t.edges);
                assert(t.with_edge(e) == t);
                lemma_order_gives_ranking(self.order@, t);
                lemma_acyclic_rejects_closing(t, e);
            }
            self.dirty = true;
            return Ok(());
        }
        self.edges.push(e);
        proof {
            lemma_push_edge(old(self).edges@, e);
            assert(self@ == t.with_edge(e));
            assert forall|x: Edge| #[trigger] self@.edges.contains(x) implies self@.edge_fits(
                x,
            ) by {
                if x != e {
                    assert(t.edges.contains(x));
                    assert(t.edge_fits(x));
                }
            }
        }
        match sort_nodes(&self.slots, &self.edges, self.channels) {
            Some(order) => {
                self.order = order;
                self.dirty = true;
                proof {
                    lemma_order_gives_ranking(self.order@, self@);
                    lemma_acyclic_rejects_closing(t, e);
                    assert forall|a: int, b: int|
                        0 <= a < self.edges@.len() && 0 <= b < self.edges@.len() && a
                            != b implies self.edges@[a] != self.edges@[b] by {
                        if a < old(self).edges.len() {
                            assert(old(self).edges@.contains(old(self).edges[a]));
                        }
                        if b < old(self).edges.len() {
                            assert(old(self).edges@.contains(old(self).edges[b]));
                        }
                    }
                }
                Ok(())
            },
            None => {
                self.edges.pop();
                proof {
                    assert(self.edges@ =~= old(self).edges@);
                    lemma_order_gives_ranking(old(self).order@, t);
                    if !t.closes_cycle(e) {
                        lemma_edge_keeps_acyclic(t, e);
                    }
                }
                Err(GraphError::CycleDetected)
            },
        }
    }

    /// Takes a connection out of the pending topology. A connection that is
    /// not there is accepted and changes nothing.
    pub fn disconnect(&mut self, c: &Connection) -> (r: Result<(), GraphError>)
        requires
            old(self).wf(),
        ensures
            final(self).wf(),
            match old(self)@.spec_disconnect(*c) {
                Ok(t) => r is Ok && final(self)@ == t && final(self).spec_dirty(),
                Err(e) => r == Err::<(), GraphError>(e) && final(self)@ == old(self)@
                    && final(self).spec_dirty() == old(self).spec_dirty(),
            },
    {
        let ghost t = self@;
        let e = match self.resolve(c) {
            Err(err) => {
                return Err(err);
            },
            Ok(e) => e,
        };
        match find_edge(&self.edges, e) {
            None => {
                proof {
                    assert(t.without_edge(e).edges =~= t.edges);
                    assert(t.without_edge(e) == t);
                }
            },
            Some(i) => {
                proof {
                    lemma_remove_edge(self.edges@, i as int);
                }
                self.edges.remove(i);
                proof {
                    let t2 = self@;
                    assert(t2 == t.without_edge(e));
                    assert forall|x: Edge| #[trigger] t2.edges.contains(x) implies t2.edge_fits(
                        x,
                    ) by {
                        assert(t.edges.contains(x));
                        assert(t.edge_fits(x));
                    }
                    assert forall|x: Edge, a: int, b: int|
                        #![trigger t2.edges.contains(x), self.order[a], self.order[b]]
                        t2.edges.contains(x) && 0 <= a < self.order.len() && 0 <= b
                            < self.order.len() && self.order[a] == x.source && x.to == (Port::Input {
                            slot: self.order[b],
                            index: x.to->index,
                        }) implies a < b by {
                        assert(t.edges.contains(x));
                    }
                }
            },
        }
        self.dirty = true;
        Ok(())
    }

    /// Carries out the staged removals and hands out a snapshot of the
    /// resulting topology. The store is clean afterwards.
    pub fn publish(&mut self) -> (snapshot: GraphSnapshot)
        requires
            old(self).wf(),
        ensures
            final(self).wf(),
            final(self)@ == old(self)@.spec_committed(),
            !final(self).spec_dirty(),
            snapshot@ == final(self)@,
            snapshot.wf(),
    {
        let ghost t = self@;
        let mut nodes: Vec<NodeRecord> = Vec::new();
        let mut i: usize = 0;
        while i < self.slots.len()
            invariant
                i <= self.slots.len(),
                t == old(self)@,
                self.slots.len() == old(self).slots.len(),
                self.edges == old(self).edges,
                self.order == old(self).order,
                self.channels == old(self).channels,
                nodes.len() == i,
                forall|j: int| i <= j < self.slots.len() ==> self.slots[j] == old(self).slots[j],
                forall|j: int|
                    0 <= j < i ==> (#[trigger] self.slots[j]).model() == t.spec_committed().nodes[j],
                forall|j: int| 0 <= j < i ==> (#[trigger] nodes[j]).model() == self.slots[j].model(),
            decreases self.slots.len() - i,
        {
            if self.slots[i].state == NodeState::PendingRemoval {
                set_state(&mut self.slots, i, NodeState::Vacant);
            }
            let record = &self.slots[i];
            nodes.push(
                NodeRecord {
                    generation: record.generation,
                    state: record.state,
                    inputs: copy_names(&record.inputs),
                    outputs: record.outputs,
                },
            );
            i += 1;
        }
        self.dirty = false;
        let snapshot = GraphSnapshot {
            nodes,
            edges: copy_edges(&self.edges),
            order: copy_order(&self.order),
            channels: self.channels,
        };
        proof {
            let t2 = self@;
            assert(t2.nodes =~= t.spec_committed().nodes);
            assert(snapshot@.nodes =~= t2.nodes);
            assert(snapshot@ == t2);
            assert forall|s: usize| t2.live_slot(s) <==> t.live_slot(s) by {}
            assert forall|e: Edge| #[trigger] t2.edges.contains(e) implies t2.edge_fits(e) by {
                assert(t.edge_fits(e));
            }
            assert forall|s: usize| #[trigger] self.order@.contains(s) <==> t2.live_slot(s) by {
                assert(t2.live_slot(s) <==> t.live_slot(s));
            }
        }
        snapshot
    }
}

} // verus!
