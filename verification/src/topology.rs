//! The mathematical model of a graph topology and of the edits on it.

use vstd::prelude::*;
use crate::handle::NodeHandle;

verus! {

/// Where a slot of the store stands.
#[derive(Clone, Copy, Debug, PartialEq, Eq, Structural)]
pub enum NodeState {
    /// No node lives here; handles into the slot are unknown.
    Vacant,
    /// A node that takes part in the topology.
    Live,
    /// A node whose removal is staged and not yet committed.
    PendingRemoval,
}

/// Why an edit was refused.
#[derive(Clone, Copy, Debug, PartialEq, Eq, Structural)]
pub enum GraphError {
    /// A handle names no node: it was never handed out, or its node is gone.
    UnknownNode,
    /// A port that its unit does not declare: an output or input index out of
    /// range, an input name the unit does not know, or a graph output channel
    /// that does not exist.
    InvalidInputSelector,
    /// The connection would close a cycle.
    CycleDetected,
    /// A handle names a node that is queued for removal.
    NodeBusy,
}

/// Picks one input of a unit, by position or by declared name.
#[derive(Clone, Debug)]
pub enum InputSelector {
    Index(usize),
    Name(String),
}

/// Where a connection ends.
#[derive(Clone, Debug)]
pub enum Sink {
    /// An input of another node.
    Node { node: NodeHandle, input: InputSelector },
    /// One of the graph's own output channels.
    GraphOutput { channel: usize },
}

/// A connection as the control side writes it.
#[derive(Clone, Debug)]
pub struct Connection {
    pub source: NodeHandle,
    pub output: usize,
    pub sink: Sink,
}

/// What the graph needs to know of a signal unit: the names of its inputs, in
/// order, and the number of its outputs.
#[derive(Clone, Debug)]
pub struct UnitDescriptor {
    pub inputs: Vec<String>,
    pub outputs: usize,
}

/// The end of a resolved connection.
#[derive(Clone, Copy, Debug, PartialEq, Eq, Structural)]
pub enum Port {
    Input { slot: usize, index: usize },
    Output { channel: usize },
}

/// A connection after its handles and selectors have been resolved.
#[derive(Clone, Copy, Debug, PartialEq, Eq, Structural)]
pub struct Edge {
    pub source: usize,
    pub output: usize,
    pub to: Port,
}

/// One slot of a topology.
pub ghost struct NodeModel {
    pub generation: u64,
    pub state: NodeState,
    pub inputs: Seq<Seq<char>>,
    pub outputs: usize,
}

/// A topology: its slots, the connections between live nodes, and the number
/// of output channels of the graph. Several connections may end in one input;
/// the unit then receives the sum of its drivers.
pub ghost struct Topology {
    pub nodes: Seq<NodeModel>,
    pub edges: Set<Edge>,
    pub channels: usize,
}

/// The names in a list of strings.
pub open spec fn spec_names(v: Seq<String>) -> Seq<Seq<char>> {
    Seq::new(v.len(), |i: int| v[i]@)
}

/// `i` is the first position at which `name` stands in `names`.
pub open spec fn is_first_position(names: Seq<Seq<char>>, name: Seq<char>, i: int) -> bool {
    &&& 0 <= i < names.len()
    &&& names[i] == name
    &&& forall|j: int| 0 <= j < i ==> names[j] != name
}

/// The input that a selector picks among `names`, if there is one.
pub open spec fn spec_input_index(names: Seq<Seq<char>>, sel: InputSelector) -> Option<usize> {
    match sel {
        InputSelector::Index(i) => if i < names.len() {
            Some(i)
        } else {
            None
        },
        InputSelector::Name(n) => if exists|i: int| is_first_position(names, n@, i) {
            Some((choose|i: int| is_first_position(names, n@, i)) as usize)
        } else {
            None
        },
    }
}

/// The edge touches the node in `slot`.
pub open spec fn spec_touches(e: Edge, slot: usize) -> bool {
    e.source == slot || (e.to matches Port::Input { slot: d, .. } && d == slot)
}

/// Along `order` every connection between nodes runs forward, and `order`
/// lists each live node of `t` once.
pub open spec fn is_topological_order(order: Seq<usize>, t: Topology) -> bool {
    &&& order.no_duplicates()
    &&& forall|s: usize| #[trigger] order.contains(s) <==> t.live_slot(s)
    &&& forall|e: Edge, i: int, j: int|
        #![trigger t.edges.contains(e), order[i], order[j]]
        t.edges.contains(e) && 0 <= i < order.len() && 0 <= j < order.len() && order[i]
            == e.source && e.to == (Port::Input { slot: order[j], index: e.to->index })
            ==> i < j
}

/// Every connection between nodes leads from a node to one of higher rank.
pub open spec fn is_ranking(rank: spec_fn(usize) -> int, t: Topology) -> bool {
    forall|e: Edge| #[trigger] t.edges.contains(e) && e.to is Input ==> rank(e.source) < rank(e.to->slot)
}

impl Topology {
    /// The topology with no node and no connection.
    pub open spec fn empty(channels: usize) -> Topology {
        Topology { nodes: Seq::empty(), edges: Set::empty(), channels }
    }

    /// The handle names a node, live or queued for removal.
    pub open spec fn known(self, h: NodeHandle) -> bool {
        &&& h.slot < self.nodes.len()
        &&& self.nodes[h.slot as int].generation == h.generation
        &&& self.nodes[h.slot as int].state != NodeState::Vacant
    }

    /// The handle names a node whose removal is staged.
    pub open spec fn busy(self, h: NodeHandle) -> bool {
        self.known(h) && self.nodes[h.slot as int].state == NodeState::PendingRemoval
    }

    /// The handle names a live node.
    pub open spec fn live(self, h: NodeHandle) -> bool {
        self.known(h) && self.nodes[h.slot as int].state == NodeState::Live
    }

    /// The slot holds a live node.
    pub open spec fn live_slot(self, s: usize) -> bool {
        s < self.nodes.len() && self.nodes[s as int].state == NodeState::Live
    }

    /// The edge joins ports that exist on live nodes.
    pub open spec fn edge_fits(self, e: Edge) -> bool {
        &&& self.live_slot(e.source)
        &&& e.output < self.nodes[e.source as int].outputs
        &&& match e.to {
            Port::Input { slot, index } => self.live_slot(slot) && index
                < self.nodes[slot as int].inputs.len(),
            Port::Output { channel } => channel < self.channels,
        }
    }

    /// Every connection joins ports that exist on live nodes.
    pub open spec fn well_formed(self) -> bool {
        &&& self.nodes.len() <= usize::MAX
        &&& forall|e: Edge| #[trigger] self.edges.contains(e) ==> self.edge_fits(e)
    }

    /// The handle names no node and never will again: its slot has moved on
    /// to a later generation, or is vacant and will move on when it is
    /// taken again.
    pub open spec fn stale(self, h: NodeHandle) -> bool {
        &&& h.slot < self.nodes.len()
        &&& (h.generation < self.nodes[h.slot as int].generation || (h.generation
            == self.nodes[h.slot as int].generation && self.nodes[h.slot as int].state
            == NodeState::Vacant))
    }

    /// The nodes can be ranked so that every connection between nodes
    /// leads to a node of higher rank.
    pub open spec fn acyclic(self) -> bool {
        exists|rank: spec_fn(usize) -> int| is_ranking(rank, self)
    }

    /// `walk` is a chain of connections: each ends in an input of the node
    /// in which the next one starts.
    pub open spec fn is_walk(self, walk: Seq<Edge>) -> bool {
        &&& walk.len() > 0
        &&& forall|k: int| 0 <= k < walk.len() ==> self.edges.contains(#[trigger] walk[k])
        &&& forall|k: int|
            0 <= k < walk.len() - 1 ==> (#[trigger] walk[k]).to == (Port::Input {
                slot: walk[k + 1].source,
                index: walk[k].to->index,
            })
    }

    /// A chain of connections leads from node `a` to an input of node `b`.
    pub open spec fn leads(self, a: usize, b: usize) -> bool {
        exists|walk: Seq<Edge>|
            #![trigger self.is_walk(walk)]
            self.is_walk(walk) && walk[0].source == a && walk.last().to == (Port::Input {
                slot: b,
                index: walk.last().to->index,
            })
    }

    /// The edge would close a cycle: it ends in an input of the node in
    /// which it starts, or of a node from which a chain of connections
    /// leads to the node in which it starts.
    pub open spec fn closes_cycle(self, e: Edge) -> bool {
        e.to is Input && (e.to->slot == e.source || self.leads(e.to->slot, e.source))
    }

    /// The slot can take a new node: it is vacant and its generations are not
    /// used up.
    pub open spec fn reusable(self, s: int) -> bool {
        &&& 0 <= s < self.nodes.len()
        &&& self.nodes[s].state == NodeState::Vacant
        &&& self.nodes[s].generation < u64::MAX
    }

    /// `s` is the first slot that can take a new node.
    pub open spec fn first_reusable(self, s: int) -> bool {
        self.reusable(s) && forall|k: int| 0 <= k < s ==> !self.reusable(k)
    }

    /// The handle that the next new node gets: the first reusable slot with
    /// its generation raised by one, or else a fresh slot at the end.
    pub open spec fn spec_next_handle(self) -> NodeHandle {
        if exists|s: int| self.first_reusable(s) {
            let s = choose|s: int| self.first_reusable(s);
            NodeHandle { slot: s as usize, generation: (self.nodes[s].generation + 1) as u64 }
        } else {
            NodeHandle { slot: self.nodes.len() as usize, generation: 0 }
        }
    }

    /// The topology after a node with the given ports has been added.
    pub open spec fn spec_add_node(self, inputs: Seq<Seq<char>>, outputs: usize) -> Topology {
        let h = self.spec_next_handle();
        let node = NodeModel { generation: h.generation, state: NodeState::Live, inputs, outputs };
        if h.slot < self.nodes.len() {
            Topology { nodes: self.nodes.update(h.slot as int, node), ..self }
        } else {
            Topology { nodes: self.nodes.push(node), ..self }
        }
    }

    /// Staging the removal of a node: the node becomes busy and its
    /// connections leave the topology.
    pub open spec fn spec_remove_node(self, h: NodeHandle) -> Result<Topology, GraphError> {
        if !self.known(h) {
            Err(GraphError::UnknownNode)
        } else if self.busy(h) {
            Err(GraphError::NodeBusy)
        } else {
            let old_node = self.nodes[h.slot as int];
            Ok(
                Topology {
                    nodes: self.nodes.update(
                        h.slot as int,
                        NodeModel { state: NodeState::PendingRemoval, ..old_node },
                    ),
                    edges: self.edges.filter(|e: Edge| !spec_touches(e, h.slot)),
                    ..self
                },
            )
        }
    }

    /// The edge that a connection stands for, or the reason why it stands for
    /// none. Unknown handles are reported first, then busy nodes, then ports
    /// that do not exist.
    pub open spec fn spec_edge_of(self, c: Connection) -> Result<Edge, GraphError> {
        if !self.known(c.source) {
            Err(GraphError::UnknownNode)
        } else if c.sink matches Sink::Node { node, .. } && !self.known(node) {
            Err(GraphError::UnknownNode)
        } else if self.busy(c.source) {
            Err(GraphError::NodeBusy)
        } else if c.sink matches Sink::Node { node, .. } && self.busy(node) {
            Err(GraphError::NodeBusy)
        } else if c.output >= self.nodes[c.source.slot as int].outputs {
            Err(GraphError::InvalidInputSelector)
        } else {
            match c.sink {
                Sink::GraphOutput { channel } => if channel < self.channels {
                    Ok(Edge { source: c.source.slot, output: c.output, to: Port::Output { channel } })
                } else {
                    Err(GraphError::InvalidInputSelector)
                },
                Sink::Node { node, input } => match spec_input_index(
                    self.nodes[node.slot as int].inputs,
                    input,
                ) {
                    Some(index) => Ok(
                        Edge {
                            source: c.source.slot,
                            output: c.output,
                            to: Port::Input { slot: node.slot, index },
                        },
                    ),
                    None => Err(GraphError::InvalidInputSelector),
                },
            }
        }
    }

    /// The topology with one more connection.
    pub open spec fn with_edge(self, e: Edge) -> Topology {
        Topology { edges: self.edges.insert(e), ..self }
    }

    /// The topology with one connection less.
    pub open spec fn without_edge(self, e: Edge) -> Topology {
        Topology { edges: self.edges.remove(e), ..self }
    }

    /// Connecting: the connection must stand for an edge, and that edge
    /// must not close a cycle.
    pub open spec fn spec_connect(self, c: Connection) -> Result<Topology, GraphError> {
        match self.spec_edge_of(c) {
            Err(err) => Err(err),
            Ok(e) => if self.closes_cycle(e) {
                Err(GraphError::CycleDetected)
            } else {
                Ok(self.with_edge(e))
            },
        }
    }

    /// Disconnecting: the connection must stand for an edge; that edge leaves
    /// the topology, if it was there.
    pub open spec fn spec_disconnect(self, c: Connection) -> Result<Topology, GraphError> {
        match self.spec_edge_of(c) {
            Err(err) => Err(err),
            Ok(e) => Ok(self.without_edge(e)),
        }
    }

    /// The topology that a commit publishes: the staged removals are carried
    /// out, so the slots of busy nodes fall vacant.
    pub open spec fn spec_committed(self) -> Topology {
        Topology {
            nodes: Seq::new(
                self.nodes.len(),
                |i: int|
                    if self.nodes[i].state == NodeState::PendingRemoval {
                        NodeModel { state: NodeState::Vacant, ..self.nodes[i] }
                    } else {
                        self.nodes[i]
                    },
            ),
            ..self
        }
    }
}

/// An order stays an order when a node that touches no connection joins at
/// its end.
pub proof fn lemma_order_push(order: Seq<usize>, slot: usize, t: Topology, t2: Topology)
    requires
        is_topological_order(order, t),
        t.well_formed(),
        !t.live_slot(slot),
        forall|s: usize| t2.live_slot(s) <==> (t.live_slot(s) || s == slot),
        t2.edges == t.edges,
    ensures
        is_topological_order(order.push(slot), t2),
{
    let o2 = order.push(slot);
    assert(!order.contains(slot));
    assert forall|a: int, b: int| 0 <= a < o2.len() && 0 <= b < o2.len() && a != b implies o2[a]
        != o2[b] by {
        if a < order.len() {
            assert(order.contains(order[a]));
        }
        if b < order.len() {
            assert(order.contains(order[b]));
        }
    }
    assert forall|s: usize| #[trigger] o2.contains(s) <==> t2.live_slot(s) by {
        if o2.contains(s) {
            let a = choose|a: int| 0 <= a < o2.len() && o2[a] == s;
            if a < order.len() {
                assert(order[a] == s);
                assert(order.contains(s));
            }
        }
        if t2.live_slot(s) {
            if s == slot {
                assert(o2[order.len() as int] == s);
            } else {
                assert(order.contains(s));
                let a = choose|a: int| 0 <= a < order.len() && order[a] == s;
                assert(o2[a] == s);
            }
        }
    }
    assert forall|e: Edge, a: int, b: int|
        #![trigger t2.edges.contains(e), o2[a], o2[b]]
        t2.edges.contains(e) && 0 <= a < o2.len() && 0 <= b < o2.len() && o2[a] == e.source
            && e.to == (Port::Input { slot: o2[b], index: e.to->index }) implies a < b by {
        assert(t.edge_fits(e));
        assert(a < order.len());
        assert(b < order.len());
        assert(t.edges.contains(e) && order[a] == e.source && order[b] == o2[b]);
    }
}

/// An order stays an order when one of its nodes leaves, together with the
/// connections that touch it.
pub proof fn lemma_order_remove(order: Seq<usize>, idx: int, t: Topology, t2: Topology)
    requires
        is_topological_order(order, t),
        0 <= idx < order.len(),
        forall|s: usize| t2.live_slot(s) <==> (t.live_slot(s) && s != order[idx]),
        forall|e: Edge| t2.edges.contains(e) ==> t.edges.contains(e),
    ensures
        is_topological_order(order.remove(idx), t2),
{
    let o2 = order.remove(idx);
    assert forall|a: int| 0 <= a < o2.len() implies o2[a] == order[if a < idx {
        a
    } else {
        a + 1
    }] by {}
    assert forall|a: int, b: int| 0 <= a < o2.len() && 0 <= b < o2.len() && a != b implies o2[a]
        != o2[b] by {
        let a1 = if a < idx {
            a
        } else {
            a + 1
        };
        let b1 = if b < idx {
            b
        } else {
            b + 1
        };
        assert(order[a1] != order[b1]);
    }
    assert forall|s: usize| #[trigger] o2.contains(s) <==> t2.live_slot(s) by {
        if o2.contains(s) {
            let a = choose|a: int| 0 <= a < o2.len() && o2[a] == s;
            let a1 = if a < idx {
                a
            } else {
                a + 1
            };
            assert(order[a1] == s);
            assert(order.contains(s));
        }
        if t2.live_slot(s) {
            assert(order.contains(s));
            let a1 = choose|a1: int| 0 <= a1 < order.len() && order[a1] == s;
            let a = if a1 < idx {
                a1
            } else {
                a1 - 1
            };
            assert(o2[a] == s);
        }
    }
    assert forall|e: Edge, a: int, b: int|
        #![trigger t2.edges.contains(e), o2[a], o2[b]]
        t2.edges.contains(e) && 0 <= a < o2.len() && 0 <= b < o2.len() && o2[a] == e.source
            && e.to == (Port::Input { slot: o2[b], index: e.to->index }) implies a < b by {
        let a1 = if a < idx {
            a
        } else {
            a + 1
        };
        let b1 = if b < idx {
            b
        } else {
            b + 1
        };
        assert(t.edges.contains(e) && order[a1] == e.source && order[b1] == o2[b]);
        assert(a1 < b1);
    }
}


/// Where the live nodes stand in an order along which every connection runs
/// forward, their places rank them: the topology is acyclic.
pub proof fn lemma_order_gives_ranking(order: Seq<usize>, t: Topology)
    requires
        t.well_formed(),
        is_topological_order(order, t),
    ensures
        is_ranking(|s: usize| order.index_of(s), t),
        t.acyclic(),
{
    let rank = |s: usize| order.index_of(s);
    assert forall|e: Edge| #[trigger] t.edges.contains(e) && e.to is Input implies rank(e.source)
        < rank(e.to->slot) by {
        assert(t.edge_fits(e));
        assert(order.contains(e.source));
        assert(order.contains(e.to->slot));
        let i = order.index_of(e.source);
        let j = order.index_of(e.to->slot);
        assert(t.edges.contains(e) && order[i] == e.source && order[j] == e.to->slot);
        assert(e.to == (Port::Input { slot: order[j], index: e.to->index }));
    }
    assert(is_ranking(rank, t));
}

/// Along a chain of connections the rank rises with every step.
pub proof fn lemma_walk_rises(t: Topology, rank: spec_fn(usize) -> int, walk: Seq<Edge>, k: int)
    requires
        is_ranking(rank, t),
        t.is_walk(walk),
        0 <= k < walk.len(),
        walk[k].to is Input,
    ensures
        rank(walk[0].source) < rank(walk[k].to->slot),
    decreases k,
{
    assert(t.edges.contains(walk[k]));
    if k > 0 {
        assert(walk[k - 1].to == (Port::Input { slot: walk[k].source, index: walk[k - 1].to->index }));
        lemma_walk_rises(t, rank, walk, k - 1);
    }
}

/// Along an order in which every connection runs forward, a node stands
/// before every node that a chain of connections leads to from it: whatever
/// feeds a node, directly or through others, is rendered before it.
pub proof fn lemma_order_respects_chains(order: Seq<usize>, t: Topology, a: usize, b: usize)
    requires
        t.well_formed(),
        is_topological_order(order, t),
        t.leads(a, b),
    ensures
        order.contains(a),
        order.contains(b),
        order.index_of(a) < order.index_of(b),
{
    lemma_order_gives_ranking(order, t);
    let rank = |s: usize| order.index_of(s);
    let walk = choose|walk: Seq<Edge>|
        #![trigger t.is_walk(walk)]
        t.is_walk(walk) && walk[0].source == a && walk.last().to == (Port::Input {
            slot: b,
            index: walk.last().to->index,
        });
    lemma_walk_rises(t, rank, walk, walk.len() - 1);
    assert(t.edge_fits(walk[0]));
    assert(t.edge_fits(walk.last()));
}

/// In an acyclic topology no chain of connections leads from a node back to
/// itself.
pub proof fn lemma_acyclic_has_no_cycle(t: Topology, n: usize)
    requires
        t.acyclic(),
    ensures
        !t.leads(n, n),
{
    if t.leads(n, n) {
        let rank = choose|rank: spec_fn(usize) -> int| is_ranking(rank, t);
        let walk = choose|walk: Seq<Edge>|
            #![trigger t.is_walk(walk)]
            t.is_walk(walk) && walk[0].source == n && walk.last().to == (Port::Input {
                slot: n,
                index: walk.last().to->index,
            });
        lemma_walk_rises(t, rank, walk, walk.len() - 1);
    }
}

/// If a topology is acyclic with one more edge, that edge closed no cycle.
pub proof fn lemma_acyclic_rejects_closing(t: Topology, e: Edge)
    requires
        t.with_edge(e).acyclic(),
    ensures
        !t.closes_cycle(e),
{
    let t2 = t.with_edge(e);
    let rank = choose|rank: spec_fn(usize) -> int| is_ranking(rank, t2);
    if t.closes_cycle(e) {
        assert(t2.edges.contains(e));
        assert(rank(e.source) < rank(e.to->slot));
        if e.to->slot != e.source {
            let walk = choose|walk: Seq<Edge>|
                #![trigger t.is_walk(walk)]
                t.is_walk(walk) && walk[0].source == e.to->slot && walk.last().to == (Port::Input {
                    slot: e.source,
                    index: walk.last().to->index,
                });
            assert(t2.is_walk(walk)) by {
                assert forall|k: int| 0 <= k < walk.len() implies t2.edges.contains(
                    #[trigger] walk[k],
                ) by {
                    assert(t.edges.contains(walk[k]));
                }
            }
            lemma_walk_rises(t2, rank, walk, walk.len() - 1);
        }
    }
}

/// A chain of connections can be extended by a connection that starts where
/// the chain ends.
pub proof fn lemma_leads_on(t: Topology, a: usize, e: Edge)
    requires
        t.edges.contains(e),
        e.to is Input,
        a == e.source || t.leads(a, e.source),
    ensures
        t.leads(a, e.to->slot),
{
    if a == e.source {
        let walk = seq![e];
        assert(t.is_walk(walk));
        assert(walk[0].source == a && walk.last().to == (Port::Input {
            slot: e.to->slot,
            index: walk.last().to->index,
        }));
    } else {
        let before = choose|walk: Seq<Edge>|
            #![trigger t.is_walk(walk)]
            t.is_walk(walk) && walk[0].source == a && walk.last().to == (Port::Input {
                slot: e.source,
                index: walk.last().to->index,
            });
        let walk = before.push(e);
        assert forall|k: int| 0 <= k < walk.len() implies t.edges.contains(#[trigger] walk[k]) by {
            if k < before.len() {
                assert(walk[k] == before[k]);
            }
        }
        assert forall|k: int| 0 <= k < walk.len() - 1 implies (#[trigger] walk[k]).to == (Port::Input {
            slot: walk[k + 1].source,
            index: walk[k].to->index,
        }) by {
            assert(walk[k] == before[k]);
            if k < before.len() - 1 {
                assert(walk[k + 1] == before[k + 1]);
            }
        }
        assert(t.is_walk(walk));
        assert(walk[0] == before[0]);
        assert(walk[0].source == a && walk.last().to == (Port::Input {
            slot: e.to->slot,
            index: walk.last().to->index,
        }));
    }
}

/// An acyclic topology stays acyclic with every edge that closes no cycle:
/// raise the rank of every node that a chain leads to from the end of the
/// new edge until that end stands above the start.
pub proof fn lemma_edge_keeps_acyclic(t: Topology, e: Edge)
    requires
        t.acyclic(),
        !t.closes_cycle(e),
    ensures
        t.with_edge(e).acyclic(),
{
    let t2 = t.with_edge(e);
    let rank = choose|rank: spec_fn(usize) -> int| is_ranking(rank, t);
    if e.to is Input {
        let s = e.source;
        let d = e.to->slot;
        let lift: int = if rank(s) >= rank(d) {
            rank(s) - rank(d) + 1
        } else {
            0
        };
        let raised = |x: usize|
            if x == d || t.leads(d, x) {
                rank(x) + lift
            } else {
                rank(x)
            };
        assert forall|x: Edge| #[trigger] t2.edges.contains(x) && x.to is Input implies raised(
            x.source,
        ) < raised(x.to->slot) by {
            if t.edges.contains(x) {
                assert(rank(x.source) < rank(x.to->slot));
                if x.source == d || t.leads(d, x.source) {
                    lemma_leads_on(t, d, x);
                }
            }
        }
        assert(is_ranking(raised, t2));
    } else {
        assert(is_ranking(rank, t2));
    }
}

/// Adding a node keeps a topology well formed and acyclic. The new handle
/// names a live node and named none before; every other handle names what it
/// named, and a stale handle stays stale.
pub proof fn lemma_add_node_sound(t: Topology, inputs: Seq<Seq<char>>, outputs: usize)
    requires
        t.well_formed(),
        t.acyclic(),
        t.nodes.len() < usize::MAX,
    ensures
        t.spec_add_node(inputs, outputs).well_formed(),
        t.spec_add_node(inputs, outputs).acyclic(),
        t.spec_add_node(inputs, outputs).live(t.spec_next_handle()),
        !t.known(t.spec_next_handle()),
        t.spec_add_node(inputs, outputs).edges == t.edges,
        forall|g: NodeHandle|
            t.known(g) ==> t.spec_add_node(inputs, outputs).nodes[g.slot as int]
                == t.nodes[g.slot as int],
        forall|g: NodeHandle| t.stale(g) ==> t.spec_add_node(inputs, outputs).stale(g),
{
    let h = t.spec_next_handle();
    let t2 = t.spec_add_node(inputs, outputs);
    if exists|s: int| t.first_reusable(s) {
        let s = choose|s: int| t.first_reusable(s);
        assert(t.first_reusable(s));
        assert(h.slot == s);
    }
    assert(!t.live_slot(h.slot));
    assert forall|e: Edge| #[trigger] t2.edges.contains(e) implies t2.edge_fits(e) by {
        assert(t.edge_fits(e));
    }
    let rank = choose|rank: spec_fn(usize) -> int| is_ranking(rank, t);
    assert(is_ranking(rank, t2));
}

/// Staging a removal keeps a topology well formed and acyclic, and makes
/// the node busy.
pub proof fn lemma_remove_node_sound(t: Topology, h: NodeHandle)
    requires
        t.well_formed(),
        t.acyclic(),
        t.spec_remove_node(h) is Ok,
    ensures
        t.live(h),
        t.spec_remove_node(h)->Ok_0.well_formed(),
        t.spec_remove_node(h)->Ok_0.acyclic(),
        t.spec_remove_node(h)->Ok_0.busy(h),
        forall|g: NodeHandle| t.stale(g) ==> t.spec_remove_node(h)->Ok_0.stale(g),
{
    let t2 = t.spec_remove_node(h)->Ok_0;
    assert forall|e: Edge| #[trigger] t2.edges.contains(e) implies t2.edge_fits(e) by {
        assert(t.edges.contains(e));
        assert(t.edge_fits(e));
    }
    let rank = choose|rank: spec_fn(usize) -> int| is_ranking(rank, t);
    assert forall|e: Edge| #[trigger] t2.edges.contains(e) && e.to is Input implies rank(e.source)
        < rank(e.to->slot) by {
        assert(t.edges.contains(e));
    }
    assert(is_ranking(rank, t2));
}

/// The edge that a connection stands for joins ports that exist.
pub proof fn lemma_edge_fits(t: Topology, c: Connection)
    requires
        t.spec_edge_of(c) is Ok,
    ensures
        t.edge_fits(t.spec_edge_of(c)->Ok_0),
        t.live(c.source),
        c.sink matches Sink::Node { node, .. } ==> t.live(node),
{
    match c.sink {
        Sink::GraphOutput { channel } => {},
        Sink::Node { node, input } => {
            let names = t.nodes[node.slot as int].inputs;
            match input {
                InputSelector::Index(i) => {},
                InputSelector::Name(n) => {
                    let i = choose|i: int| is_first_position(names, n@, i);
                    assert(is_first_position(names, n@, i));
                },
            }
        },
    }
}

/// A connection that is accepted keeps a topology well formed and acyclic
/// and leaves its nodes alone.
pub proof fn lemma_connect_sound(t: Topology, c: Connection)
    requires
        t.well_formed(),
        t.acyclic(),
        t.spec_connect(c) is Ok,
    ensures
        t.spec_connect(c)->Ok_0.well_formed(),
        t.spec_connect(c)->Ok_0.acyclic(),
        t.spec_connect(c)->Ok_0.nodes == t.nodes,
        t.spec_connect(c)->Ok_0.edges == t.edges.insert(t.spec_edge_of(c)->Ok_0),
        t.live(c.source),
{
    let t2 = t.spec_connect(c)->Ok_0;
    let e = t.spec_edge_of(c)->Ok_0;
    lemma_edge_fits(t, c);
    lemma_edge_keeps_acyclic(t, e);
    assert forall|x: Edge| #[trigger] t2.edges.contains(x) implies t2.edge_fits(x) by {
        if x != e {
            assert(t.edge_fits(x));
        }
    }
}

/// Taking a connection out keeps a topology well formed and acyclic and
/// leaves its nodes alone.
pub proof fn lemma_disconnect_sound(t: Topology, c: Connection)
    requires
        t.well_formed(),
        t.acyclic(),
        t.spec_disconnect(c) is Ok,
    ensures
        t.spec_disconnect(c)->Ok_0.well_formed(),
        t.spec_disconnect(c)->Ok_0.acyclic(),
        t.spec_disconnect(c)->Ok_0.nodes == t.nodes,
        t.spec_disconnect(c)->Ok_0.edges == t.edges.remove(t.spec_edge_of(c)->Ok_0),
{
    let t2 = t.spec_disconnect(c)->Ok_0;
    assert forall|x: Edge| #[trigger] t2.edges.contains(x) implies t2.edge_fits(x) by {
        assert(t.edge_fits(x));
    }
    let rank = choose|rank: spec_fn(usize) -> int| is_ranking(rank, t);
    assert forall|e: Edge| #[trigger] t2.edges.contains(e) && e.to is Input implies rank(e.source)
        < rank(e.to->slot) by {
        assert(t.edges.contains(e));
    }
    assert(is_ranking(rank, t2));
}

/// Carrying out the staged removals keeps a topology well formed and
/// acyclic. Live nodes stay live, busy nodes become unknown and stale, and
/// nothing is busy afterwards.
pub proof fn lemma_committed_sound(t: Topology)
    requires
        t.well_formed(),
        t.acyclic(),
    ensures
        t.spec_committed().well_formed(),
        t.spec_committed().acyclic(),
        t.spec_committed().edges == t.edges,
        forall|g: NodeHandle| t.live(g) <==> t.spec_committed().live(g),
        forall|g: NodeHandle| t.busy(g) ==> t.spec_committed().stale(g),
        forall|g: NodeHandle| !t.spec_committed().busy(g),
        forall|g: NodeHandle| t.stale(g) ==> t.spec_committed().stale(g),
{
    let t2 = t.spec_committed();
    assert forall|x: Edge| #[trigger] t2.edges.contains(x) implies t2.edge_fits(x) by {
        assert(t.edge_fits(x));
    }
    let rank = choose|rank: spec_fn(usize) -> int| is_ranking(rank, t);
    assert(is_ranking(rank, t2));
}

} // verus!
