//! Ordering the live nodes so that sources come before their consumers.

use vstd::prelude::*;
use crate::topology::{
    is_ranking, is_topological_order, lemma_order_gives_ranking, spec_names, Edge, NodeModel, NodeState,
    Port, Topology,
};

verus! {

/// What a slot of the graph holds.
#[derive(Clone, Debug)]
pub struct NodeRecord {
    pub generation: u64,
    pub state: NodeState,
    pub inputs: Vec<String>,
    pub outputs: usize,
}

impl NodeRecord {
    /// The slot as the model sees it.
    pub open spec fn model(&self) -> NodeModel {
        NodeModel {
            generation: self.generation,
            state: self.state,
            inputs: spec_names(self.inputs@),
            outputs: self.outputs,
        }
    }
}

/// The slots as the model sees them.
pub open spec fn spec_node_models(slots: Seq<NodeRecord>) -> Seq<NodeModel> {
    Seq::new(slots.len(), |i: int| slots[i].model())
}

/// The topology that slots, connections and a channel count stand for.
pub open spec fn spec_topology(slots: Seq<NodeRecord>, edges: Seq<Edge>, channels: usize) -> Topology {
    Topology { nodes: spec_node_models(slots), edges: edges.to_set(), channels }
}

/// How many entries of `placed` are still false.
pub open spec fn spec_unplaced(placed: Seq<bool>) -> nat
    decreases placed.len(),
{
    if placed.len() == 0 {
        0
    } else {
        spec_unplaced(placed.drop_last()) + if placed.last() {
            0nat
        } else {
            1nat
        }
    }
}

proof fn lemma_place_one(placed: Seq<bool>, v: int)
    requires
        0 <= v < placed.len(),
        !placed[v],
    ensures
        spec_unplaced(placed.update(v, true)) + 1 == spec_unplaced(placed),
    decreases placed.len(),
{
    if v == placed.len() - 1 {
        assert(placed.update(v, true).drop_last() =~= placed.drop_last());
    } else {
        assert(placed.update(v, true).drop_last() =~= placed.drop_last().update(v, true));
        lemma_place_one(placed.drop_last(), v);
    }
}

/// Every connection into node `v` comes from a node that is placed.
pub open spec fn spec_ready(edges: Seq<Edge>, placed: Seq<bool>, v: usize) -> bool {
    forall|k: int|
        0 <= k < edges.len() && (#[trigger] edges[k]).to == (Port::Input {
            slot: v,
            index: edges[k].to->index,
        }) ==> placed[edges[k].source as int]
}

fn is_ready(edges: &Vec<Edge>, placed: &Vec<bool>, v: usize) -> (r: bool)
    requires
        forall|k: int| 0 <= k < edges.len() ==> (#[trigger] edges[k]).source < placed.len(),
    ensures
        r == spec_ready(edges@, placed@, v),
{
    let mut k: usize = 0;
    while k < edges.len()
        invariant
            k <= edges.len(),
            forall|q: int| 0 <= q < edges.len() ==> (#[trigger] edges[q]).source < placed.len(),
            forall|q: int|
                0 <= q < k && (#[trigger] edges[q]).to == (Port::Input {
                    slot: v,
                    index: edges[q].to->index,
                }) ==> placed[edges[q].source as int],
        decreases edges.len() - k,
    {
        let e = edges[k];
        match e.to {
            Port::Input { slot, index } => {
                if slot == v && !placed[e.source] {
                    return false;
                }
            },
            Port::Output { channel } => {},
        }
        k += 1;
    }
    true
}

/// The first live node that is not placed and is ready, if there is one.
fn find_ready(slots: &Vec<NodeRecord>, edges: &Vec<Edge>, placed: &Vec<bool>) -> (r: Option<usize>)
    requires
        placed.len() == slots.len(),
        forall|k: int| 0 <= k < edges.len() ==> (#[trigger] edges[k]).source < placed.len(),
    ensures
        match r {
            Some(v) => v < slots.len() && slots[v as int].state == NodeState::Live && !placed[v as int]
                && spec_ready(edges@, placed@, v),
            None => forall|u: usize|
                u < slots.len() && slots[u as int].state == NodeState::Live && !placed[u as int]
                    ==> !spec_ready(edges@, placed@, u),
        },
{
    let mut v: usize = 0;
    while v < slots.len()
        invariant
            v <= slots.len(),
            placed.len() == slots.len(),
            forall|k: int| 0 <= k < edges.len() ==> (#[trigger] edges[k]).source < placed.len(),
            forall|u: usize|
                u < v && slots[u as int].state == NodeState::Live && !placed[u as int]
                    ==> !spec_ready(edges@, placed@, u),
        decreases slots.len() - v,
    {
        if slots[v].state == NodeState::Live && !placed[v] && is_ready(edges, placed, v) {
            return Some(v);
        }
        v += 1;
    }
    None
}

/// Among the slots below `n`, a live node that is not placed and whose
/// rank is lowest, if any live node there is not placed.
proof fn lemma_lowest_unplaced(t: Topology, placed: Seq<bool>, rank: spec_fn(usize) -> int, n: int) -> (m:
    Option<usize>)
    requires
        0 <= n <= t.nodes.len() <= usize::MAX,
        placed.len() == t.nodes.len(),
    ensures
        match m {
            Some(m) => m < n && t.live_slot(m) && !placed[m as int] && forall|u: usize|
                u < n && t.live_slot(u) && !placed[u as int] ==> rank(m) <= rank(u),
            None => forall|u: usize| u < n ==> !(t.live_slot(u) && !placed[u as int]),
        },
    decreases n,
{
    if n == 0 {
        None
    } else {
        let below = lemma_lowest_unplaced(t, placed, rank, n - 1);
        let c = (n - 1) as usize;
        if t.live_slot(c) && !placed[c as int] {
            match below {
                Some(m) => if rank(c) < rank(m) {
                    Some(c)
                } else {
                    Some(m)
                },
                None => Some(c),
            }
        } else {
            below
        }
    }
}

/// Where no unplaced live node is ready and one is left, no ranking exists:
/// the unplaced node of lowest rank would have a driver of lower rank that
/// is not placed either.
proof fn lemma_stuck_has_no_ranking(
    t: Topology,
    edges: Seq<Edge>,
    placed: Seq<bool>,
    rank: spec_fn(usize) -> int,
    w: usize,
)
    requires
        t.well_formed(),
        t.edges == edges.to_set(),
        placed.len() == t.nodes.len(),
        t.live_slot(w),
        !placed[w as int],
        forall|u: usize| t.live_slot(u) && !placed[u as int] ==> !spec_ready(edges, placed, u),
    ensures
        !is_ranking(rank, t),
{
    if is_ranking(rank, t) {
        let lowest = lemma_lowest_unplaced(t, placed, rank, t.nodes.len() as int);
        assert(lowest is Some);
        let v = lowest->Some_0;
        assert(!spec_ready(edges, placed, v));
        let k = choose|k: int|
            0 <= k < edges.len() && (#[trigger] edges[k]).to == (Port::Input {
                slot: v,
                index: edges[k].to->index,
            }) && !placed[edges[k].source as int];
        let e = edges[k];
        assert(edges.contains(e));
        assert(t.edges.contains(e));
        assert(t.edge_fits(e));
        assert(rank(e.source) < rank(v));
        assert(rank(v) <= rank(e.source));
    }
}

/// Orders the live nodes so that every connection runs forward, or finds
/// that no such order exists.
pub fn sort_nodes(slots: &Vec<NodeRecord>, edges: &Vec<Edge>, channels: usize) -> (r: Option<
    Vec<usize>,
>)
    requires
        spec_topology(slots@, edges@, channels).well_formed(),
    ensures
        r is Some <==> spec_topology(slots@, edges@, channels).acyclic(),
        r matches Some(order) ==> is_topological_order(
            order@,
            spec_topology(slots@, edges@, channels),
        ),
{
    let n = slots.len();
    let ghost t = spec_topology(slots@, edges@, channels);
    assert forall|k: int| 0 <= k < edges.len() implies (#[trigger] edges[k]).source < n
        && t.edge_fits(edges[k]) by {
        assert(edges@.contains(edges[k]));
        assert(t.edges.contains(edges[k]));
    }
    let mut placed: Vec<bool> = Vec::new();
    let mut i: usize = 0;
    while i < n
        invariant
            i <= n,
            placed.len() == i,
            forall|j: int| 0 <= j < i ==> !placed[j],
        decreases n - i,
    {
        placed.push(false);
        i += 1;
    }
    let mut order: Vec<usize> = Vec::new();
    let mut stuck = false;
    while !stuck
        invariant
            n == slots.len(),
            placed.len() == n,
            t == spec_topology(slots@, edges@, channels),
            forall|k: int|
                0 <= k < edges.len() ==> (#[trigger] edges[k]).source < n && t.edge_fits(edges[k]),
            order@.no_duplicates(),
            forall|s: usize| #[trigger] order@.contains(s) <==> (s < n && placed[s as int]),
            forall|s: usize| s < n && placed[s as int] ==> t.live_slot(s),
            forall|k: int|
                0 <= k < edges.len() && (#[trigger] edges[k]).to is Input && placed[edges[k].to->slot as int]
                    ==> placed[edges[k].source as int],
            forall|k: int, a: int, b: int|
                #![trigger edges[k], order[a], order[b]]
                0 <= k < edges.len() && 0 <= a < order.len() && 0 <= b < order.len() && order[a]
                    == edges[k].source && edges[k].to == (Port::Input {
                    slot: order[b],
                    index: edges[k].to->index,
                }) ==> a < b,
            stuck ==> forall|u: usize|
                t.live_slot(u) && !placed[u as int] ==> !spec_ready(edges@, placed@, u),
        decreases spec_unplaced(placed@), if stuck { 0int } else { 1int },
    {
        match find_ready(slots, edges, &placed) {
            None => {
                stuck = true;
            },
            Some(f) => {
                let ghost before = placed@;
                let ghost old_order = order@;
                proof {
                    lemma_place_one(placed@, f as int);
                }
                placed.set(f, true);
                order.push(f);
                proof {
                    assert(!old_order.contains(f));
                    assert forall|s: usize| #[trigger] order@.contains(s) <==> (s < n
                        && placed[s as int]) by {
                        if order@.contains(s) {
                            let a = choose|a: int| 0 <= a < order@.len() && order@[a] == s;
                            if a < old_order.len() {
                                assert(old_order[a] == s);
                                assert(old_order.contains(s));
                            }
                        }
                        if s < n && placed[s as int] {
                            if s == f {
                                assert(order@[old_order.len() as int] == s);
                            } else {
                                assert(old_order.contains(s));
                                let a = choose|a: int| 0 <= a < old_order.len() && old_order[a] == s;
                                assert(order@[a] == s);
                            }
                        }
                    }
                    assert forall|k: int|
                        0 <= k < edges.len() && (#[trigger] edges[k]).to is Input
                            && placed[edges[k].to->slot as int] implies placed[edges[k].source as int] by {
                        if edges[k].to->slot == f {
                            assert(edges[k].to == (Port::Input { slot: f, index: edges[k].to->index }));
                            assert(before[edges[k].source as int]);
                        }
                    }
                    assert forall|k: int, a: int, b: int|
                        #![trigger edges[k], order[a], order[b]]
                        0 <= k < edges.len() && 0 <= a < order.len() && 0 <= b < order.len()
                            && order[a] == edges[k].source && edges[k].to == (Port::Input {
                            slot: order[b],
                            index: edges[k].to->index,
                        }) implies a < b by {
                        let last = old_order.len() as int;
                        if b == last {
                            assert(before[edges[k].source as int]);
                            if a == last {
                                assert(false);
                            }
                        } else {
                            assert(old_order[b] == order[b]);
                            assert(old_order.contains(order[b]));
                            assert(before[order[b] as int]);
                            assert(before[edges[k].source as int]);
                            if a == last {
                                assert(false);
                            } else {
                                assert(old_order[a] == order[a]);
                            }
                        }
                    }
                }
            },
        }
    }
    let mut u: usize = 0;
    while u < n
        invariant
            u <= n,
            n == slots.len(),
            placed.len() == n,
            t == spec_topology(slots@, edges@, channels),
            t.well_formed(),
            forall|w: usize| w < u && t.live_slot(w) ==> placed[w as int],
            forall|w: usize| t.live_slot(w) && !placed[w as int] ==> !spec_ready(edges@, placed@, w),
        decreases n - u,
    {
        if slots[u].state == NodeState::Live && !placed[u] {
            proof {
                assert(t.live_slot(u));
                assert forall|rank: spec_fn(usize) -> int| !is_ranking(rank, t) by {
                    lemma_stuck_has_no_ranking(t, edges@, placed@, rank, u);
                }
            }
            return None;
        }
        u += 1;
    }
    proof {
        assert forall|e: Edge, a: int, b: int|
            #![trigger t.edges.contains(e), order[a], order[b]]
            t.edges.contains(e) && 0 <= a < order.len() && 0 <= b < order.len() && order[a]
                == e.source && e.to == (Port::Input { slot: order[b], index: e.to->index })
                implies a < b by {
            assert(edges@.contains(e));
            let k = choose|k: int| 0 <= k < edges.len() && edges[k] == e;
            assert(edges[k].to == (Port::Input { slot: order[b], index: edges[k].to->index }));
        }
        lemma_order_gives_ranking(order@, t);
    }
    Some(order)
}

} // verus!
