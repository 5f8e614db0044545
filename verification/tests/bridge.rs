use bevy_knyst::bridge::{
    AudioGraphCommands, AudioGraphPlugin, Bridge, DeviceError, KnystBackend, SubmitError,
};
use bevy_knyst::commit::{Edit, EditOutcome};
use bevy_knyst::handle::{AudioGraphProcessing, AudioHandleRef, NodeHandle, NodeRef};
use bevy_knyst::render::Event;
use bevy_knyst::schedule::{LogicalTime, ParameterChange, SchedulingError};
use bevy_knyst::time::{WallClock, MAX_SAMPLE_RATE, TESIMALS_PER_SECOND};
use bevy_knyst::topology::{Connection, Edge, InputSelector, Port, Sink, UnitDescriptor};

fn bridge(rate: u64, block: u64) -> Bridge {
    AudioGraphPlugin::default().build(KnystBackend::new(rate, block, 2)).unwrap()
}

fn now(target: NodeHandle, value: u32) -> ParameterChange {
    ParameterChange {
        target,
        input: InputSelector::Index(0),
        value,
        time: LogicalTime::Immediate,
    }
}

fn sine() -> UnitDescriptor {
    UnitDescriptor { inputs: vec!["freq".to_string()], outputs: 1 }
}

#[test]
fn the_default_plugin() {
    let plugin = AudioGraphPlugin::default();
    assert_eq!(plugin.queue_capacity, 1000);
    assert_eq!(plugin.latency, WallClock { seconds: 0, tesimals: 14_112_000 });
    assert_eq!(plugin.latency.to_frames(48_000), Some(2_400));
}

#[test]
fn building_starts_the_backend() {
    let b = bridge(48_000, 64);
    assert!(b.backend.running);
    assert_eq!(b.backend.sample_rate, 48_000);
    assert_eq!(b.protocol.live().channels, 2);
    assert_eq!(b.driver.clock(), 0);
    assert_eq!(b.commands.edits.capacity(), 1000);
    assert_eq!(b.commands.changes.capacity(), 1000);
}

#[test]
fn a_backend_is_started_once() {
    let mut backend = KnystBackend::new(48_000, 64, 2);
    assert_eq!(backend.stop(), Err(DeviceError::BackendNotRunning));
    assert_eq!(backend.start(), Ok(()));
    assert_eq!(backend.start(), Err(DeviceError::BackendAlreadyRunning));
    let r = AudioGraphPlugin::default().build(backend);
    assert!(matches!(r, Err(DeviceError::BackendAlreadyRunning)));
    assert_eq!(backend.stop(), Ok(()));
    assert!(!backend.running);
}

#[test]
fn a_format_that_cannot_be_used_builds_nothing() {
    let plugin = AudioGraphPlugin::default();
    assert!(matches!(
        plugin.build(KnystBackend::new(0, 64, 2)),
        Err(DeviceError::UnusableFormat)
    ));
    assert!(matches!(
        plugin.build(KnystBackend::new(48_000, 0, 2)),
        Err(DeviceError::UnusableFormat)
    ));
    assert!(matches!(
        plugin.build(KnystBackend::new(MAX_SAMPLE_RATE + 1, 64, 2)),
        Err(DeviceError::UnusableFormat)
    ));
    assert!(plugin.build(KnystBackend::new(MAX_SAMPLE_RATE, 1, 0)).is_ok());
}

#[test]
fn shutdown_stops_the_backend_once() {
    let mut b = bridge(48_000, 64);
    assert_eq!(b.shutdown(), Ok(()));
    assert!(!b.backend.running);
    assert_eq!(b.shutdown(), Err(DeviceError::BackendNotRunning));
}

#[test]
fn a_tick_stages_and_commits() {
    let mut b = bridge(48_000, 64);
    assert_eq!(b.commands.submit(Edit::AddNode(sine())), Ok(()));
    let (outcomes, changed) = b.tick();
    let h = NodeHandle { slot: 0, generation: 0 };
    assert_eq!(outcomes, vec![EditOutcome::Added(h)]);
    assert!(changed);
    let (outcomes, changed) = b.tick();
    assert_eq!(outcomes, vec![]);
    assert!(!changed);
    assert_eq!(b.protocol.live().order, vec![0]);
}

#[test]
fn a_full_queue_refuses_the_submission() {
    let mut commands = AudioGraphCommands::new(1);
    let h = NodeHandle { slot: 0, generation: 0 };
    assert_eq!(commands.submit(Edit::RemoveNode(h)), Ok(()));
    assert_eq!(commands.submit(Edit::RemoveNode(h)), Err(SubmitError::Overflow));
    assert_eq!(commands.edits.len(), 1);
    assert_eq!(commands.schedule_change(now(h, 1)), Ok(()));
    assert_eq!(commands.schedule_change(now(h, 2)), Err(SubmitError::Overflow));
    assert_eq!(commands.changes.len(), 1);
    assert_eq!(commands.changes.dequeue().unwrap().change.value, 1);
}

#[test]
fn a_malformed_time_is_refused_at_submission() {
    let mut commands = AudioGraphCommands::new(0);
    let h = NodeHandle { slot: 0, generation: 0 };
    let mut c = now(h, 1);
    c.time = LogicalTime::SampleOffset(-5);
    assert_eq!(
        commands.schedule_change(c),
        Err(SubmitError::Scheduling(SchedulingError::NegativeOffset))
    );
    let mut c = now(h, 1);
    c.time = LogicalTime::WallClockInstant(WallClock { seconds: 0, tesimals: TESIMALS_PER_SECOND });
    assert_eq!(
        commands.schedule_change(c),
        Err(SubmitError::Scheduling(SchedulingError::MalformedInstant))
    );
    assert_eq!(commands.schedule_change(now(h, 1)), Err(SubmitError::Overflow));
    assert!(commands.changes.is_empty());
}

#[test]
fn a_change_submitted_between_two_buffers_applies_at_the_start_of_the_second() {
    let mut b = bridge(48_000, 64);
    let h = b.protocol.store.add_node(sine());
    b.tick();
    assert_eq!(b.render(), vec![]);
    assert_eq!(b.commands.schedule_change(now(h, 77)), Ok(()));
    assert_eq!(b.render(), vec![Event { frame: 0, slot: 0, generation: 0, input: 0, value: 77 }]);
    assert_eq!(b.render(), vec![]);
    assert_eq!(b.driver.clock(), 192);
}

#[test]
fn a_sample_offset_counts_from_the_last_rendered_boundary() {
    let mut b = bridge(48_000, 64);
    let h = b.protocol.store.add_node(sine());
    b.tick();
    b.render();
    b.render();
    assert_eq!(b.commands.anchor, 128);
    let mut c = now(h, 5);
    c.time = LogicalTime::SampleOffset(70);
    assert_eq!(b.commands.schedule_change(c), Ok(()));
    assert_eq!(b.render(), vec![]);
    assert_eq!(b.render(), vec![Event { frame: 6, slot: 0, generation: 0, input: 0, value: 5 }]);
}

#[test]
fn a_change_for_a_node_that_is_not_committed_yet_is_skipped() {
    let mut b = bridge(48_000, 64);
    let h = b.protocol.store.add_node(sine());
    assert_eq!(b.commands.schedule_change(now(h, 1)), Ok(()));
    assert_eq!(b.render(), vec![]);
    b.tick();
    assert_eq!(b.commands.schedule_change(now(h, 2)), Ok(()));
    assert_eq!(b.render(), vec![Event { frame: 0, slot: 0, generation: 0, input: 0, value: 2 }]);
}

#[test]
fn rendering_releases_the_replaced_snapshots() {
    let mut b = bridge(48_000, 64);
    b.protocol.store.add_node(sine());
    b.tick();
    b.protocol.store.add_node(sine());
    b.tick();
    assert_eq!(b.protocol.retired_len(), 2);
    b.render();
    assert_eq!(b.protocol.retired_len(), 0);
    assert_eq!(b.protocol.live().nodes.len(), 2);
}

#[test]
fn a_sine_wired_to_both_outputs_sounds_at_its_frequency() {
    let rate: u64 = 44_000;
    let block: u64 = 4_400;
    let mut b = bridge(rate, block);
    let carrier = b.protocol.store.add_node(sine());
    for channel in 0..2 {
        let c = Connection { source: carrier, output: 0, sink: Sink::GraphOutput { channel } };
        assert_eq!(b.protocol.store.connect(&c), Ok(()));
    }
    let freq = ParameterChange {
        target: carrier,
        input: InputSelector::Name("freq".to_string()),
        value: 440.0f32.to_bits(),
        time: LogicalTime::Immediate,
    };
    assert_eq!(b.commands.schedule_change(freq), Ok(()));
    let (_, changed) = b.tick();
    assert!(changed);
    let events = b.render();
    assert_eq!(
        events,
        vec![Event { frame: 0, slot: 0, generation: 0, input: 0, value: 440.0f32.to_bits() }]
    );
    let snapshot = b.protocol.live();
    assert_eq!(snapshot.order, vec![carrier.slot]);
    assert_eq!(
        snapshot.edges,
        vec![
            Edge { source: 0, output: 0, to: Port::Output { channel: 0 } },
            Edge { source: 0, output: 0, to: Port::Output { channel: 1 } },
        ]
    );

    let mut out = vec![vec![0.0f64; block as usize]; snapshot.channels];
    let mut inputs = vec![0.0f64; 1];
    let mut phase = 0.0f64;
    let mut next = 0;
    for frame in 0..block as usize {
        while next < events.len() && events[next].frame as usize == frame {
            inputs[events[next].input] = f32::from_bits(events[next].value) as f64;
            next += 1;
        }
        let mut unit_out = vec![0.0f64; snapshot.nodes.len()];
        for slot in snapshot.order.iter() {
            unit_out[*slot] = (phase * std::f64::consts::TAU).sin();
            phase += inputs[0] / rate as f64;
        }
        for e in snapshot.edges.iter() {
            if let Port::Output { channel } = e.to {
                out[channel][frame] += unit_out[e.source];
            }
        }
    }
    let period = (rate / 440) as usize;
    assert_eq!(period, 100);
    for channel in 0..2 {
        let peak = out[channel].iter().fold(0.0f64, |m, x| m.max(x.abs()));
        assert!(peak > 0.99);
        for i in 0..(block as usize - period) {
            assert!((out[channel][i] - out[channel][i + period]).abs() < 1e-6);
        }
        assert!((out[channel][period / 4] - 1.0).abs() < 1e-6);
        assert!((out[channel][period / 2]).abs() < 1e-6);
    }
    assert_eq!(out[0], out[1]);
}

#[test]
fn the_debug_text_of_the_handle() {
    let commands = AudioGraphCommands::new(4);
    assert_eq!(commands.debug_text(), "AudioGraphCommands(\"..\")");
    assert_eq!(commands.debug_text().len(), 24);
}

#[test]
fn a_tick_keeps_the_replaced_snapshot_and_a_render_releases_it() {
    let mut b = bridge(48_000, 64);
    assert_eq!(b.protocol.retired_len(), 0);
    b.protocol.store.add_node(sine());
    let (_, changed) = b.tick();
    assert!(changed);
    assert_eq!(b.protocol.retired_len(), 1);
    assert_eq!(b.protocol.retired[0].replaced_in, 1);
    assert_eq!(b.protocol.retired[0].snapshot.nodes.len(), 0);
    let (_, changed) = b.tick();
    assert!(!changed);
    assert_eq!(b.protocol.retired_len(), 1);
    assert_eq!(b.protocol.live().nodes.len(), 1);
    b.render();
    assert_eq!(b.protocol.retired_len(), 0);
}

#[test]
fn what_an_entity_carries() {
    let h = NodeHandle { slot: 3, generation: 2 };
    let r = NodeRef(h);
    assert_eq!(*r, h);
    assert_eq!(r.slot, 3);
    assert_eq!(r, NodeRef(NodeHandle { slot: 3, generation: 2 }));
    assert_ne!(r, NodeRef(NodeHandle { slot: 3, generation: 1 }));
    let copy = r;
    assert_eq!(copy.0.slot, 3);
    assert_eq!(AudioGraphProcessing, AudioGraphProcessing.clone());
    let a = AudioHandleRef { buffer: 1, handle: 2 };
    assert_eq!(a.buffer, 1);
    assert_eq!(a.handle, 2);
}
