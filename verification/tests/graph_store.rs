use bevy_knyst::handle::NodeHandle;
use bevy_knyst::store::{resolve_input, GraphSnapshot, GraphStore};
use bevy_knyst::topology::{
    Connection, Edge, GraphError, InputSelector, NodeState, Port, Sink, UnitDescriptor,
};

fn unit(inputs: &[&str], outputs: usize) -> UnitDescriptor {
    UnitDescriptor { inputs: inputs.iter().map(|s| s.to_string()).collect(), outputs }
}

fn wire(source: NodeHandle, output: usize, node: NodeHandle, input: usize) -> Connection {
    Connection { source, output, sink: Sink::Node { node, input: InputSelector::Index(input) } }
}

fn to_out(source: NodeHandle, output: usize, channel: usize) -> Connection {
    Connection { source, output, sink: Sink::GraphOutput { channel } }
}

fn position(snapshot: &GraphSnapshot, slot: usize) -> usize {
    snapshot.order.iter().position(|s| *s == slot).unwrap()
}

fn sources_come_first(snapshot: &GraphSnapshot) -> bool {
    snapshot.edges.iter().all(|e| match e.to {
        Port::Input { slot, .. } => position(snapshot, e.source) < position(snapshot, slot),
        Port::Output { .. } => true,
    })
}

#[test]
fn new_store_is_empty_and_clean() {
    let mut store = GraphStore::new(2);
    assert!(!store.is_dirty());
    let snapshot = store.publish();
    assert_eq!(snapshot.nodes.len(), 0);
    assert_eq!(snapshot.edges.len(), 0);
    assert_eq!(snapshot.order.len(), 0);
    assert_eq!(snapshot.channels, 2);
}

#[test]
fn add_node_hands_out_fresh_slots() {
    let mut store = GraphStore::new(2);
    let a = store.add_node(unit(&["freq"], 1));
    let b = store.add_node(unit(&[], 1));
    assert_eq!(a, NodeHandle { slot: 0, generation: 0 });
    assert_eq!(b, NodeHandle { slot: 1, generation: 0 });
    assert!(store.is_dirty());
    assert_eq!(store.state_of(a), Some(NodeState::Live));
    assert_eq!(store.state_of(b), Some(NodeState::Live));
}

#[test]
fn vacant_slot_is_taken_again_under_a_new_generation() {
    let mut store = GraphStore::new(2);
    let a = store.add_node(unit(&[], 1));
    let b = store.add_node(unit(&[], 1));
    assert_eq!(store.remove_node(a), Ok(()));
    let early = store.add_node(unit(&[], 1));
    assert_eq!(early, NodeHandle { slot: 2, generation: 0 });
    store.publish();
    let again = store.add_node(unit(&[], 1));
    assert_eq!(again, NodeHandle { slot: 0, generation: 1 });
    assert_eq!(store.state_of(a), None);
    assert_eq!(store.state_of(again), Some(NodeState::Live));
    assert_eq!(store.state_of(b), Some(NodeState::Live));
}

#[test]
fn handle_that_was_never_handed_out_is_unknown() {
    let mut store = GraphStore::new(2);
    let a = store.add_node(unit(&["in"], 1));
    let ghost = NodeHandle { slot: 7, generation: 0 };
    let wrong_generation = NodeHandle { slot: a.slot, generation: 3 };
    assert_eq!(store.state_of(ghost), None);
    assert_eq!(store.remove_node(ghost), Err(GraphError::UnknownNode));
    assert_eq!(store.remove_node(wrong_generation), Err(GraphError::UnknownNode));
    assert_eq!(store.connect(&wire(ghost, 0, a, 0)), Err(GraphError::UnknownNode));
    assert_eq!(store.connect(&wire(a, 0, ghost, 0)), Err(GraphError::UnknownNode));
    assert_eq!(store.disconnect(&wire(a, 0, wrong_generation, 0)), Err(GraphError::UnknownNode));
}

#[test]
fn connect_resolves_inputs_by_index_and_by_name() {
    let mut store = GraphStore::new(2);
    let osc = store.add_node(unit(&["freq", "amp"], 1));
    let lfo = store.add_node(unit(&[], 2));
    assert_eq!(
        store.resolve(&wire(lfo, 1, osc, 0)),
        Ok(Edge { source: 1, output: 1, to: Port::Input { slot: 0, index: 0 } })
    );
    let named = Connection {
        source: lfo,
        output: 0,
        sink: Sink::Node { node: osc, input: InputSelector::Name("amp".to_string()) },
    };
    assert_eq!(
        store.resolve(&named),
        Ok(Edge { source: 1, output: 0, to: Port::Input { slot: 0, index: 1 } })
    );
    assert_eq!(store.connect(&named), Ok(()));
    let snapshot = store.publish();
    assert_eq!(
        snapshot.edges,
        vec![Edge { source: 1, output: 0, to: Port::Input { slot: 0, index: 1 } }]
    );
}

#[test]
fn a_repeated_name_resolves_to_its_first_input() {
    let names = vec!["a".to_string(), "b".to_string(), "b".to_string()];
    assert_eq!(resolve_input(&names, &InputSelector::Name("b".to_string())), Some(1));
    assert_eq!(resolve_input(&names, &InputSelector::Name("c".to_string())), None);
    assert_eq!(resolve_input(&names, &InputSelector::Index(2)), Some(2));
    assert_eq!(resolve_input(&names, &InputSelector::Index(3)), None);
}

#[test]
fn ports_that_do_not_exist_are_refused() {
    let mut store = GraphStore::new(2);
    let osc = store.add_node(unit(&["freq"], 1));
    let lfo = store.add_node(unit(&[], 1));
    let unknown_name = Connection {
        source: lfo,
        output: 0,
        sink: Sink::Node { node: osc, input: InputSelector::Name("phase".to_string()) },
    };
    assert_eq!(store.connect(&unknown_name), Err(GraphError::InvalidInputSelector));
    assert_eq!(store.connect(&wire(lfo, 0, osc, 1)), Err(GraphError::InvalidInputSelector));
    assert_eq!(store.connect(&wire(lfo, 1, osc, 0)), Err(GraphError::InvalidInputSelector));
    assert_eq!(store.connect(&to_out(osc, 0, 2)), Err(GraphError::InvalidInputSelector));
    assert_eq!(store.connect(&to_out(osc, 1, 0)), Err(GraphError::InvalidInputSelector));
    assert_eq!(store.disconnect(&to_out(osc, 0, 2)), Err(GraphError::InvalidInputSelector));
    let snapshot = store.publish();
    assert_eq!(snapshot.edges.len(), 0);
}

#[test]
fn unknown_node_is_reported_before_a_bad_port() {
    let mut store = GraphStore::new(1);
    let a = store.add_node(unit(&[], 1));
    let ghost = NodeHandle { slot: 9, generation: 0 };
    assert_eq!(store.connect(&wire(a, 5, ghost, 0)), Err(GraphError::UnknownNode));
}

#[test]
fn a_connection_to_itself_is_a_cycle() {
    let mut store = GraphStore::new(1);
    let a = store.add_node(unit(&["in"], 1));
    assert_eq!(store.connect(&wire(a, 0, a, 0)), Err(GraphError::CycleDetected));
}

#[test]
fn a_connection_that_closes_a_cycle_is_refused_and_changes_nothing() {
    let mut store = GraphStore::new(1);
    let a = store.add_node(unit(&["in"], 1));
    let b = store.add_node(unit(&["in"], 1));
    let c = store.add_node(unit(&["in"], 1));
    assert_eq!(store.connect(&wire(a, 0, b, 0)), Ok(()));
    assert_eq!(store.connect(&wire(b, 0, c, 0)), Ok(()));
    let before = store.publish();
    assert!(!store.is_dirty());
    assert_eq!(store.connect(&wire(c, 0, a, 0)), Err(GraphError::CycleDetected));
    assert_eq!(store.connect(&wire(b, 0, a, 0)), Err(GraphError::CycleDetected));
    assert!(!store.is_dirty());
    let after = store.publish();
    assert_eq!(before.edges, after.edges);
    assert_eq!(before.order, after.order);
    assert!(sources_come_first(&after));
}

#[test]
fn a_diamond_is_no_cycle() {
    let mut store = GraphStore::new(1);
    let top = store.add_node(unit(&[], 2));
    let left = store.add_node(unit(&["in"], 1));
    let right = store.add_node(unit(&["in"], 1));
    let bottom = store.add_node(unit(&["l", "r"], 1));
    assert_eq!(store.connect(&wire(left, 0, bottom, 0)), Ok(()));
    assert_eq!(store.connect(&wire(right, 0, bottom, 1)), Ok(()));
    assert_eq!(store.connect(&wire(top, 0, left, 0)), Ok(()));
    assert_eq!(store.connect(&wire(top, 1, right, 0)), Ok(()));
    assert_eq!(store.connect(&to_out(bottom, 0, 0)), Ok(()));
    let snapshot = store.publish();
    assert_eq!(snapshot.edges.len(), 5);
    assert_eq!(snapshot.order.len(), 4);
    assert!(sources_come_first(&snapshot));
    assert_eq!(position(&snapshot, top.slot), 0);
    assert_eq!(position(&snapshot, bottom.slot), 3);
}

#[test]
fn the_order_follows_connections_made_against_the_order_of_creation() {
    let mut store = GraphStore::new(1);
    let sink = store.add_node(unit(&["in"], 1));
    let middle = store.add_node(unit(&["in"], 1));
    let source = store.add_node(unit(&[], 1));
    assert_eq!(store.connect(&wire(middle, 0, sink, 0)), Ok(()));
    assert_eq!(store.connect(&wire(source, 0, middle, 0)), Ok(()));
    let snapshot = store.publish();
    assert_eq!(snapshot.order, vec![source.slot, middle.slot, sink.slot]);
}

#[test]
fn a_connection_made_twice_is_held_once() {
    let mut store = GraphStore::new(2);
    let a = store.add_node(unit(&[], 1));
    assert_eq!(store.connect(&to_out(a, 0, 1)), Ok(()));
    assert_eq!(store.connect(&to_out(a, 0, 1)), Ok(()));
    let snapshot = store.publish();
    assert_eq!(snapshot.edges, vec![Edge { source: 0, output: 0, to: Port::Output { channel: 1 } }]);
}

#[test]
fn several_sources_may_drive_one_input() {
    let mut store = GraphStore::new(1);
    let a = store.add_node(unit(&[], 1));
    let b = store.add_node(unit(&[], 1));
    let mix = store.add_node(unit(&["in"], 1));
    assert_eq!(store.connect(&wire(a, 0, mix, 0)), Ok(()));
    assert_eq!(store.connect(&wire(b, 0, mix, 0)), Ok(()));
    let snapshot = store.publish();
    assert_eq!(snapshot.edges.len(), 2);
}

#[test]
fn disconnect_takes_the_connection_out() {
    let mut store = GraphStore::new(2);
    let a = store.add_node(unit(&[], 1));
    let b = store.add_node(unit(&["in"], 1));
    assert_eq!(store.connect(&wire(a, 0, b, 0)), Ok(()));
    assert_eq!(store.connect(&to_out(b, 0, 0)), Ok(()));
    assert_eq!(store.disconnect(&wire(a, 0, b, 0)), Ok(()));
    let snapshot = store.publish();
    assert_eq!(snapshot.edges, vec![Edge { source: 1, output: 0, to: Port::Output { channel: 0 } }]);
    assert_eq!(store.disconnect(&wire(a, 0, b, 0)), Ok(()));
    assert!(store.is_dirty());
    assert_eq!(store.publish().edges.len(), 1);
}

#[test]
fn disconnect_opens_the_way_for_the_opposite_connection() {
    let mut store = GraphStore::new(1);
    let a = store.add_node(unit(&["in"], 1));
    let b = store.add_node(unit(&["in"], 1));
    assert_eq!(store.connect(&wire(a, 0, b, 0)), Ok(()));
    assert_eq!(store.connect(&wire(b, 0, a, 0)), Err(GraphError::CycleDetected));
    assert_eq!(store.disconnect(&wire(a, 0, b, 0)), Ok(()));
    assert_eq!(store.connect(&wire(b, 0, a, 0)), Ok(()));
    let snapshot = store.publish();
    assert_eq!(snapshot.order, vec![b.slot, a.slot]);
}

#[test]
fn remove_node_takes_its_connections_along() {
    let mut store = GraphStore::new(2);
    let a = store.add_node(unit(&[], 1));
    let b = store.add_node(unit(&["in"], 1));
    let c = store.add_node(unit(&["in"], 1));
    assert_eq!(store.connect(&wire(a, 0, b, 0)), Ok(()));
    assert_eq!(store.connect(&wire(b, 0, c, 0)), Ok(()));
    assert_eq!(store.connect(&to_out(b, 0, 0)), Ok(()));
    assert_eq!(store.connect(&to_out(c, 0, 1)), Ok(()));
    assert_eq!(store.remove_node(b), Ok(()));
    assert_eq!(store.state_of(b), Some(NodeState::PendingRemoval));
    let snapshot = store.publish();
    assert_eq!(snapshot.edges, vec![Edge { source: 2, output: 0, to: Port::Output { channel: 1 } }]);
    assert_eq!(snapshot.order, vec![a.slot, c.slot]);
    assert_eq!(snapshot.nodes[b.slot].state, NodeState::Vacant);
    assert_eq!(store.state_of(b), None);
}

#[test]
fn a_node_queued_for_removal_is_busy() {
    let mut store = GraphStore::new(1);
    let a = store.add_node(unit(&["in"], 1));
    let b = store.add_node(unit(&["in"], 1));
    assert_eq!(store.remove_node(a), Ok(()));
    assert_eq!(store.remove_node(a), Err(GraphError::NodeBusy));
    assert_eq!(store.connect(&wire(a, 0, b, 0)), Err(GraphError::NodeBusy));
    assert_eq!(store.connect(&wire(b, 0, a, 0)), Err(GraphError::NodeBusy));
    assert_eq!(store.connect(&to_out(a, 0, 0)), Err(GraphError::NodeBusy));
    assert_eq!(store.disconnect(&wire(b, 0, a, 0)), Err(GraphError::NodeBusy));
}

#[test]
fn a_removed_node_is_unknown_once_the_removal_is_published() {
    let mut store = GraphStore::new(1);
    let a = store.add_node(unit(&["in"], 1));
    let b = store.add_node(unit(&["in"], 1));
    assert_eq!(store.connect(&wire(b, 0, a, 0)), Ok(()));
    let before = store.publish();
    assert_eq!(store.remove_node(a), Ok(()));
    let live = store.publish();
    assert_eq!(store.connect(&wire(a, 0, b, 0)), Err(GraphError::UnknownNode));
    assert_eq!(store.connect(&wire(b, 0, a, 0)), Err(GraphError::UnknownNode));
    assert_eq!(store.remove_node(a), Err(GraphError::UnknownNode));
    assert!(!store.is_dirty());
    assert_eq!(before.edges.len(), 1);
    assert_eq!(live.edges.len(), 0);
    assert_eq!(live.order, vec![b.slot]);
    let after = store.publish();
    assert_eq!(after.edges, live.edges);
    assert_eq!(after.order, live.order);
}

#[test]
fn the_store_is_dirty_after_an_edit_and_clean_after_publishing() {
    let mut store = GraphStore::new(1);
    assert!(!store.is_dirty());
    let a = store.add_node(unit(&[], 1));
    assert!(store.is_dirty());
    store.publish();
    assert!(!store.is_dirty());
    assert_eq!(store.connect(&to_out(a, 0, 3)), Err(GraphError::InvalidInputSelector));
    assert!(!store.is_dirty());
    assert_eq!(store.connect(&to_out(a, 0, 0)), Ok(()));
    assert!(store.is_dirty());
    store.publish();
    assert_eq!(store.remove_node(a), Ok(()));
    assert!(store.is_dirty());
}

#[test]
fn a_snapshot_keeps_the_declared_ports() {
    let mut store = GraphStore::new(1);
    let a = store.add_node(unit(&["freq", "amp"], 3));
    let snapshot = store.publish();
    assert_eq!(snapshot.nodes[a.slot].inputs, vec!["freq".to_string(), "amp".to_string()]);
    assert_eq!(snapshot.nodes[a.slot].outputs, 3);
    assert_eq!(snapshot.nodes[a.slot].generation, 0);
    assert_eq!(snapshot.nodes[a.slot].state, NodeState::Live);
}
