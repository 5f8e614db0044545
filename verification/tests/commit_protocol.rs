use bevy_knyst::commit::{CommitProtocol, Edit, EditOutcome, NodePhase};
use bevy_knyst::handle::NodeHandle;
use bevy_knyst::queue::ChangeQueue;
use bevy_knyst::topology::{
    Connection, Edge, GraphError, InputSelector, NodeState, Port, Sink, UnitDescriptor,
};

fn unit(inputs: &[&str], outputs: usize) -> UnitDescriptor {
    UnitDescriptor { inputs: inputs.iter().map(|s| s.to_string()).collect(), outputs }
}

fn wire(source: NodeHandle, node: NodeHandle) -> Connection {
    Connection { source, output: 0, sink: Sink::Node { node, input: InputSelector::Index(0) } }
}

fn to_out(source: NodeHandle, channel: usize) -> Connection {
    Connection { source, output: 0, sink: Sink::GraphOutput { channel } }
}

fn slot(n: usize) -> NodeHandle {
    NodeHandle { slot: n, generation: 0 }
}

fn queue_of(edits: Vec<Edit>) -> ChangeQueue<Edit> {
    let mut queue = ChangeQueue::new(64);
    for e in edits {
        assert!(queue.enqueue(e).is_ok());
    }
    queue
}

#[test]
fn a_new_protocol_has_nothing_to_commit() {
    let mut protocol = CommitProtocol::new(2);
    assert_eq!(protocol.epoch(), 0);
    assert_eq!(protocol.retired_len(), 0);
    assert_eq!(protocol.live().channels, 2);
    assert!(!protocol.commit());
    assert_eq!(protocol.epoch(), 0);
}

#[test]
fn edits_are_staged_in_the_order_of_submission() {
    let mut protocol = CommitProtocol::new(2);
    let mut edits = queue_of(vec![
        Edit::AddNode(unit(&[], 1)),
        Edit::AddNode(unit(&["in"], 1)),
        Edit::Connect(wire(slot(0), slot(1))),
        Edit::Connect(to_out(slot(1), 0)),
    ]);
    let outcomes = protocol.stage_pending_edits(&mut edits);
    assert_eq!(
        outcomes,
        vec![
            EditOutcome::Added(slot(0)),
            EditOutcome::Added(slot(1)),
            EditOutcome::Applied,
            EditOutcome::Applied,
        ]
    );
    assert!(edits.is_empty());
    assert!(protocol.store.is_dirty());
    assert_eq!(protocol.live().nodes.len(), 0);
    assert!(protocol.commit());
    assert_eq!(protocol.live().nodes.len(), 2);
    assert_eq!(
        protocol.live().edges,
        vec![
            Edge { source: 0, output: 0, to: Port::Input { slot: 1, index: 0 } },
            Edge { source: 1, output: 0, to: Port::Output { channel: 0 } },
        ]
    );
    assert_eq!(protocol.live().order, vec![0, 1]);
}

#[test]
fn a_refused_edit_does_not_stop_the_edits_behind_it() {
    let mut protocol = CommitProtocol::new(1);
    let mut edits = queue_of(vec![
        Edit::AddNode(unit(&["in"], 1)),
        Edit::Connect(wire(slot(0), slot(5))),
        Edit::Connect(wire(slot(0), slot(0))),
        Edit::Connect(to_out(slot(0), 4)),
        Edit::RemoveNode(slot(3)),
        Edit::Connect(to_out(slot(0), 0)),
    ]);
    let outcomes = protocol.stage_pending_edits(&mut edits);
    assert_eq!(
        outcomes,
        vec![
            EditOutcome::Added(slot(0)),
            EditOutcome::Rejected(GraphError::UnknownNode),
            EditOutcome::Rejected(GraphError::CycleDetected),
            EditOutcome::Rejected(GraphError::InvalidInputSelector),
            EditOutcome::Rejected(GraphError::UnknownNode),
            EditOutcome::Applied,
        ]
    );
    assert!(protocol.commit());
    assert_eq!(
        protocol.live().edges,
        vec![Edge { source: 0, output: 0, to: Port::Output { channel: 0 } }]
    );
}

#[test]
fn committing_twice_reports_no_change_the_second_time() {
    let mut protocol = CommitProtocol::new(1);
    protocol.store.add_node(unit(&[], 1));
    assert!(protocol.commit());
    let mut none: ChangeQueue<Edit> = ChangeQueue::new(4);
    assert_eq!(protocol.stage_pending_edits(&mut none).len(), 0);
    assert!(!protocol.commit());
    assert_eq!(protocol.epoch(), 1);
    assert_eq!(protocol.retired_len(), 1);
    assert_eq!(protocol.live().nodes.len(), 1);
}

#[test]
fn staging_only_refused_edits_leaves_nothing_to_commit() {
    let mut protocol = CommitProtocol::new(1);
    let mut edits = queue_of(vec![
        Edit::RemoveNode(slot(0)),
        Edit::Disconnect(to_out(slot(0), 0)),
    ]);
    let outcomes = protocol.stage_pending_edits(&mut edits);
    assert_eq!(
        outcomes,
        vec![
            EditOutcome::Rejected(GraphError::UnknownNode),
            EditOutcome::Rejected(GraphError::UnknownNode),
        ]
    );
    assert!(!protocol.commit());
}

#[test]
fn the_live_snapshot_changes_only_on_commit() {
    let mut protocol = CommitProtocol::new(2);
    let a = protocol.store.add_node(unit(&[], 1));
    assert!(protocol.commit());
    assert_eq!(protocol.store.connect(&to_out(a, 0)), Ok(()));
    assert_eq!(protocol.store.connect(&to_out(a, 1)), Ok(()));
    assert_eq!(protocol.live().edges.len(), 0);
    let mut edits = queue_of(vec![Edit::Disconnect(to_out(a, 0))]);
    protocol.stage_pending_edits(&mut edits);
    assert_eq!(protocol.live().edges.len(), 0);
    assert!(protocol.commit());
    assert_eq!(
        protocol.live().edges,
        vec![Edge { source: 0, output: 0, to: Port::Output { channel: 1 } }]
    );
}

#[test]
fn a_stale_handle_is_refused_and_the_live_snapshot_stays() {
    let mut protocol = CommitProtocol::new(1);
    let a = protocol.store.add_node(unit(&["in"], 1));
    let b = protocol.store.add_node(unit(&["in"], 1));
    assert_eq!(protocol.store.connect(&to_out(b, 0)), Ok(()));
    assert!(protocol.commit());
    assert_eq!(protocol.store.remove_node(a), Ok(()));
    let mut edits = queue_of(vec![Edit::Connect(wire(a, b))]);
    assert_eq!(
        protocol.stage_pending_edits(&mut edits),
        vec![EditOutcome::Rejected(GraphError::NodeBusy)]
    );
    assert!(protocol.commit());
    let mut edits = queue_of(vec![Edit::Connect(wire(a, b)), Edit::Connect(wire(b, a))]);
    assert_eq!(
        protocol.stage_pending_edits(&mut edits),
        vec![
            EditOutcome::Rejected(GraphError::UnknownNode),
            EditOutcome::Rejected(GraphError::UnknownNode),
        ]
    );
    assert!(!protocol.commit());
    assert_eq!(
        protocol.live().edges,
        vec![Edge { source: 1, output: 0, to: Port::Output { channel: 0 } }]
    );
    assert_eq!(protocol.live().order, vec![1]);
    assert_eq!(protocol.live().nodes[0].state, NodeState::Vacant);
}

#[test]
fn a_node_passes_through_its_phases() {
    let mut protocol = CommitProtocol::new(1);
    assert_eq!(protocol.phase(slot(0)), NodePhase::Removed);
    let a = protocol.store.add_node(unit(&[], 1));
    assert_eq!(protocol.phase(a), NodePhase::Uncommitted);
    assert!(protocol.commit());
    assert_eq!(protocol.phase(a), NodePhase::Live);
    assert_eq!(protocol.store.remove_node(a), Ok(()));
    assert_eq!(protocol.phase(a), NodePhase::PendingRemoval);
    assert_eq!(protocol.live().nodes[a.slot].state, NodeState::Live);
    assert!(protocol.commit());
    assert_eq!(protocol.phase(a), NodePhase::Removed);
    let again = protocol.store.add_node(unit(&[], 1));
    assert_eq!(again.slot, a.slot);
    assert_eq!(protocol.phase(a), NodePhase::Removed);
    assert_eq!(protocol.phase(again), NodePhase::Uncommitted);
}

#[test]
fn a_node_added_and_removed_before_a_commit_is_never_live() {
    let mut protocol = CommitProtocol::new(1);
    let a = protocol.store.add_node(unit(&[], 1));
    assert_eq!(protocol.store.remove_node(a), Ok(()));
    assert_eq!(protocol.phase(a), NodePhase::PendingRemoval);
    assert!(protocol.commit());
    assert_eq!(protocol.phase(a), NodePhase::Removed);
    assert_eq!(protocol.live().order.len(), 0);
}

#[test]
fn replaced_snapshots_are_kept_until_the_render_side_has_moved_on() {
    let mut protocol = CommitProtocol::new(1);
    protocol.store.add_node(unit(&[], 1));
    assert!(protocol.commit());
    protocol.store.add_node(unit(&[], 1));
    assert!(protocol.commit());
    protocol.store.add_node(unit(&[], 1));
    assert!(protocol.commit());
    assert_eq!(protocol.epoch(), 3);
    assert_eq!(protocol.retired_len(), 3);
    assert_eq!(protocol.reclaim(0), 0);
    assert_eq!(protocol.retired_len(), 3);
    assert_eq!(protocol.reclaim(1), 1);
    assert_eq!(protocol.retired_len(), 2);
    assert_eq!(protocol.retired[0].replaced_in, 2);
    assert_eq!(protocol.retired[0].snapshot.nodes.len(), 1);
    assert_eq!(protocol.retired[1].replaced_in, 3);
    assert_eq!(protocol.retired[1].snapshot.nodes.len(), 2);
    assert_eq!(protocol.reclaim(3), 2);
    assert_eq!(protocol.retired_len(), 0);
    assert_eq!(protocol.live().nodes.len(), 3);
}
