//! The integration adapter: what the host loop sees of the bridge.

use vstd::prelude::*;
use crate::commit::{spec_commit, spec_stage, CommitProtocol, Edit, EditOutcome, Retired};
use crate::queue::ChangeQueue;
use crate::render::{spec_plan, spec_waiting, Event, RenderDriver, Scheduled};
use crate::schedule::{check_time, spec_check_time, ParameterChange, ParameterScheduler, SchedulingError};
use crate::time::{WallClock, MAX_SAMPLE_RATE};
use crate::topology::Topology;

verus! {

/// Why the audio device could not be started or stopped.
#[derive(Clone, Copy, Debug, PartialEq, Eq, Structural)]
pub enum DeviceError {
    /// The backend was started before; it can be started once.
    BackendAlreadyRunning,
    /// The backend is not running.
    BackendNotRunning,
    /// The device reports a sample rate or a buffer size that cannot be used.
    UnusableFormat,
}

/// Why a submission was refused.
#[derive(Clone, Copy, Debug, PartialEq, Eq, Structural)]
pub enum SubmitError {
    /// The logical time of the change is malformed.
    Scheduling(SchedulingError),
    /// The queue is full. The submission is dropped; what waits stays.
    Overflow,
}

/// The audio device, as far as the bridge needs it: the facts it reported,
/// fixed for the session, and whether its callback is registered.
#[derive(Clone, Copy, Debug, PartialEq, Eq, Structural)]
pub struct KnystBackend {
    pub sample_rate: u64,
    pub block_size: u64,
    pub num_outputs: usize,
    pub running: bool,
}

impl KnystBackend {
    /// A backend that is not running yet, with the facts of its device.
    pub fn new(sample_rate: u64, block_size: u64, num_outputs: usize) -> (b: KnystBackend)
        ensures
            b == (KnystBackend { sample_rate, block_size, num_outputs, running: false }),
    {
        KnystBackend { sample_rate, block_size, num_outputs, running: false }
    }

    /// Registers the render callback. A backend is started once.
    pub fn start(&mut self) -> (r: Result<(), DeviceError>)
        ensures
            old(self).running ==> r == Err::<(), DeviceError>(DeviceError::BackendAlreadyRunning)
                && *final(self) == *old(self),
            !old(self).running ==> r is Ok && *final(self) == (KnystBackend {
                running: true,
                ..*old(self)
            }),
    {
        if self.running {
            Err(DeviceError::BackendAlreadyRunning)
        } else {
            self.running = true;
            Ok(())
        }
    }

    /// Takes the render callback away.
    pub fn stop(&mut self) -> (r: Result<(), DeviceError>)
        ensures
            !old(self).running ==> r == Err::<(), DeviceError>(DeviceError::BackendNotRunning)
                && *final(self) == *old(self),
            old(self).running ==> r is Ok && *final(self) == (KnystBackend {
                running: false,
                ..*old(self)
            }),
    {
        if self.running {
            self.running = false;
            Ok(())
        } else {
            Err(DeviceError::BackendNotRunning)
        }
    }
}

/// The handle through which the host loop submits edits and parameter
/// changes. Both are queued; neither touches the graph when submitted.
pub struct AudioGraphCommands {
    /// The edits that wait to be staged.
    pub edits: ChangeQueue<Edit>,
    /// The parameter changes that wait for the render side.
    pub changes: ChangeQueue<Scheduled>,
    /// The buffer boundary of the render clock as last published.
    pub anchor: u64,
}

impl AudioGraphCommands {
    /// A handle with two empty queues of the given capacity each.
    pub fn new(capacity: usize) -> (c: AudioGraphCommands)
        ensures
            c.edits@ == Seq::<Edit>::empty(),
            c.changes@ == Seq::<Scheduled>::empty(),
            c.edits.spec_capacity() == capacity,
            c.changes.spec_capacity() == capacity,
            c.anchor == 0,
    {
        AudioGraphCommands {
            edits: ChangeQueue::new(capacity),
            changes: ChangeQueue::new(capacity),
            anchor: 0,
        }
    }

    /// How the handle shows in debug output: its name, and nothing of what
    /// it holds.
    pub fn debug_text(&self) -> (s: String)
        ensures
            s@ == "AudioGraphCommands(\"..\")"@,
    {
        "AudioGraphCommands(\"..\")".to_owned()
    }

    /// Queues an edit of the topology; the next tick stages it. A full
    /// queue refuses the edit.
    pub fn submit(&mut self, edit: Edit) -> (r: Result<(), SubmitError>)
        ensures
            final(self).changes == old(self).changes,
            final(self).anchor == old(self).anchor,
            final(self).edits.spec_capacity() == old(self).edits.spec_capacity(),
            old(self).edits@.len() < old(self).edits.spec_capacity() ==> r is Ok && final(self).edits@ == old(self).edits@.push(edit),
            old(self).edits@.len() >= old(self).edits.spec_capacity() ==> r == Err::<
                (),
                SubmitError,
            >(SubmitError::Overflow) && final(self).edits@ == old(self).edits@,
    {
        match self.edits.enqueue(edit) {
            Ok(()) => Ok(()),
            Err(_) => Err(SubmitError::Overflow),
        }
    }

    /// Queues a parameter change for the render side, stamped with the
    /// buffer boundary at which it is submitted. A change with a malformed
    /// time is refused; so is any change while the queue is full.
    pub fn schedule_change(&mut self, change: ParameterChange) -> (r: Result<(), SubmitError>)
        ensures
            final(self).edits == old(self).edits,
            final(self).anchor == old(self).anchor,
            final(self).changes.spec_capacity() == old(self).changes.spec_capacity(),
            match spec_check_time(change.time) {
                Some(e) => r == Err::<(), SubmitError>(SubmitError::Scheduling(e)) && final(self).changes@ == old(self).changes@,
                None => if old(self).changes@.len() < old(self).changes.spec_capacity() {
                    r is Ok && final(self).changes@ == old(self).changes@.push(
                        Scheduled { change, anchor: old(self).anchor },
                    )
                } else {
                    r == Err::<(), SubmitError>(SubmitError::Overflow) && final(self).changes@
                        == old(self).changes@
                },
            },
    {
        match check_time(change.time) {
            Err(e) => {
                return Err(SubmitError::Scheduling(e));
            },
            Ok(()) => {},
        }
        match self.changes.enqueue(Scheduled { change, anchor: self.anchor }) {
            Ok(()) => Ok(()),
            Err(_) => Err(SubmitError::Overflow),
        }
    }
}

/// The settings with which the bridge is built into a host application.
#[derive(Clone, Copy, Debug, PartialEq, Eq, Structural)]
pub struct AudioGraphPlugin {
    /// How many submissions each queue takes.
    pub queue_capacity: usize,
    /// The latency window of the scheduler.
    pub latency: WallClock,
}

impl Default for AudioGraphPlugin {
    /// Queues of a thousand submissions, and a latency window of fifty
    /// milliseconds.
    fn default() -> (p: AudioGraphPlugin)
        ensures
            p == (AudioGraphPlugin {
                queue_capacity: 1000,
                latency: WallClock { seconds: 0, tesimals: 14_112_000 },
            }),
    {
        AudioGraphPlugin {
            queue_capacity: 1000,
            latency: WallClock { seconds: 0, tesimals: 14_112_000 },
        }
    }
}

/// The bridge: the control side, the render side, the handle between the
/// host loop and the two, and the device.
pub struct Bridge {
    pub protocol: CommitProtocol,
    pub driver: RenderDriver,
    pub commands: AudioGraphCommands,
    pub backend: KnystBackend,
}

impl AudioGraphPlugin {
    /// Builds the bridge on a device and starts the device. Fails, and
    /// builds nothing, if the device was started before or reports a format
    /// that cannot be used: a sample rate of zero or above
    /// `MAX_SAMPLE_RATE`, or an empty buffer.
    pub fn build(&self, backend: KnystBackend) -> (r: Result<Bridge, DeviceError>)
        ensures
            backend.running ==> r == Err::<Bridge, DeviceError>(
                DeviceError::BackendAlreadyRunning,
            ),
            !backend.running && !(0 < backend.sample_rate <= MAX_SAMPLE_RATE && 0
                < backend.block_size) ==> r == Err::<Bridge, DeviceError>(
                DeviceError::UnusableFormat,
            ),
            !backend.running && 0 < backend.sample_rate <= MAX_SAMPLE_RATE && 0 < backend.block_size
                ==> (r matches Ok(b) && {
                &&& b.wf()
                &&& b.backend == (KnystBackend { running: true, ..backend })
                &&& b.protocol.store@ == Topology::empty(backend.num_outputs)
                &&& b.protocol.live@ == Topology::empty(backend.num_outputs)
                &&& !b.protocol.store.spec_dirty()
                &&& b.protocol.epoch == 0
                &&& b.protocol.retired@.len() == 0
                &&& b.driver.spec_clock() == 0
                &&& b.driver.spec_waiting_changes().len() == 0
                &&& b.driver.spec_scheduler().spec_sample_rate() == backend.sample_rate
                &&& b.driver.spec_scheduler().spec_buffer_frames() == backend.block_size
                &&& b.driver.spec_scheduler().spec_latency() == self.latency
                &&& b.commands.edits@.len() == 0
                &&& b.commands.changes@.len() == 0
                &&& b.commands.edits.spec_capacity() == self.queue_capacity
                &&& b.commands.changes.spec_capacity() == self.queue_capacity
                &&& b.commands.anchor == 0
            }),
    {
        let mut backend = backend;
        if backend.running {
            return Err(DeviceError::BackendAlreadyRunning);
        }
        let scheduler = match ParameterScheduler::new(
            backend.sample_rate,
            backend.block_size,
            self.latency,
        ) {
            Some(s) => s,
            None => {
                return Err(DeviceError::UnusableFormat);
            },
        };
        match backend.start() {
            Ok(()) => {},
            Err(e) => {
                return Err(e);
            },
        }
        Ok(
            Bridge {
                protocol: CommitProtocol::new(backend.num_outputs),
                driver: RenderDriver::new(scheduler),
                commands: AudioGraphCommands::new(self.queue_capacity),
                backend,
            },
        )
    }
}

impl Bridge {
    /// The invariant of the bridge is that of its control side.
    pub open spec fn wf(&self) -> bool {
        self.protocol.wf()
    }

    /// What the host loop calls once per update: stages the queued edits and
    /// commits. Hands out what became of each edit, and whether the live
    /// topology changed.
    pub fn tick(&mut self) -> (r: (Vec<EditOutcome>, bool))
        requires
            old(self).wf(),
            old(self).protocol.epoch < u64::MAX,
        ensures
            final(self).wf(),
            r.0@ == crate::commit::spec_outcomes(old(self).protocol.store@, old(self).commands.edits@),
            (final(self).protocol.model(), r.1) == spec_commit(
                spec_stage(old(self).protocol.model(), old(self).commands.edits@),
            ),
            final(self).protocol.epoch == old(self).protocol.epoch + if r.1 {
                1int
            } else {
                0int
            },
            final(self).protocol.retired@ == if r.1 {
                old(self).protocol.retired@.push(
                    Retired {
                        snapshot: old(self).protocol.live,
                        replaced_in: final(self).protocol.epoch,
                    },
                )
            } else {
                old(self).protocol.retired@
            },
            !r.1 ==> final(self).protocol.live == old(self).protocol.live,
            final(self).commands.edits@.len() == 0,
            final(self).commands.edits.spec_capacity() == old(self).commands.edits.spec_capacity(),
            final(self).commands.changes == old(self).commands.changes,
            final(self).commands.anchor == old(self).commands.anchor,
            final(self).driver == old(self).driver,
            final(self).backend == old(self).backend,
    {
        let outcomes = self.protocol.stage_pending_edits(&mut self.commands.edits);
        let changed = self.protocol.commit();
        (outcomes, changed)
    }

    /// What the render callback does at the start of a buffer: takes the
    /// queued parameter changes, resolves them against the live snapshot
    /// and hands out the events of the buffer. The snapshots that were
    /// replaced before are released, since the render side now reads the
    /// live one.
    pub fn render(&mut self) -> (events: Vec<Event>)
        requires
            old(self).driver.spec_clock() + old(self).driver.spec_scheduler().spec_buffer_frames()
                <= u64::MAX,
        ensures
            events@ == spec_plan(
                old(self).driver.spec_scheduler(),
                old(self).protocol.live@,
                old(self).driver.spec_waiting_changes() + old(self).commands.changes@,
                old(self).driver.spec_clock(),
            ),
            final(self).driver.spec_waiting_changes() == spec_waiting(
                old(self).driver.spec_scheduler(),
                old(self).driver.spec_waiting_changes() + old(self).commands.changes@,
                old(self).driver.spec_clock(),
            ),
            final(self).driver.spec_scheduler() == old(self).driver.spec_scheduler(),
            final(self).driver.spec_clock() == old(self).driver.spec_clock() + old(self).driver.spec_scheduler().spec_buffer_frames(),
            final(self).commands.anchor == final(self).driver.spec_clock(),
            final(self).commands.changes@.len() == 0,
            final(self).commands.changes.spec_capacity() == old(self).commands.changes.spec_capacity(),
            final(self).commands.edits == old(self).commands.edits,
            final(self).protocol.store == old(self).protocol.store,
            final(self).protocol.live == old(self).protocol.live,
            final(self).protocol.epoch == old(self).protocol.epoch,
            final(self).protocol.retired@ == crate::commit::spec_kept(
                old(self).protocol.retired@,
                old(self).protocol.epoch,
            ),
            final(self).backend == old(self).backend,
    {
        let events = self.driver.render(&self.protocol.live, &mut self.commands.changes);
        self.commands.anchor = self.driver.clock();
        let seen = self.protocol.epoch;
        let _released = self.protocol.reclaim(seen);
        events
    }

    /// Stops the device. The bridge keeps its state.
    pub fn shutdown(&mut self) -> (r: Result<(), DeviceError>)
        ensures
            final(self).protocol == old(self).protocol,
            final(self).driver == old(self).driver,
            final(self).commands == old(self).commands,
            !old(self).backend.running ==> r == Err::<(), DeviceError>(
                DeviceError::BackendNotRunning,
            ) && final(self).backend == old(self).backend,
            old(self).backend.running ==> r is Ok && final(self).backend == (KnystBackend {
                running: false,
                ..old(self).backend
            }),
    {
        self.backend.stop()
    }
}

} // verus!
