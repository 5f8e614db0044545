//! The parameter scheduler: from a logical time to a frame of a buffer.

use vstd::prelude::*;
use crate::handle::NodeHandle;
use crate::time::{lemma_frames_fit, spec_frames, superseconds_to_samples, WallClock, MAX_SAMPLE_RATE};
use crate::topology::InputSelector;

verus! {

/// When a parameter change is to take effect.
#[derive(Clone, Copy, Debug, PartialEq, Eq, Structural)]
pub enum LogicalTime {
    /// As soon as possible: on the first frame of the next buffer.
    Immediate,
    /// So many frames after the buffer boundary at which the change was
    /// enqueued. A negative offset is malformed.
    SampleOffset(i64),
    /// At an instant of the session clock.
    WallClockInstant(WallClock),
}

/// Why a logical time was refused.
#[derive(Clone, Copy, Debug, PartialEq, Eq, Structural)]
pub enum SchedulingError {
    /// A sample offset below zero.
    NegativeOffset,
    /// An instant whose fraction is a second or more.
    MalformedInstant,
}

/// A new value for one input of one node, and when it is to apply. The value
/// is carried as the bit pattern of a single-precision number.
#[derive(Clone, Debug)]
pub struct ParameterChange {
    pub target: NodeHandle,
    pub input: InputSelector,
    pub value: u32,
    pub time: LogicalTime,
}

/// The error that a logical time is refused with, if it is malformed.
pub open spec fn spec_check_time(time: LogicalTime) -> Option<SchedulingError> {
    match time {
        LogicalTime::Immediate => None,
        LogicalTime::SampleOffset(n) => if n < 0 {
            Some(SchedulingError::NegativeOffset)
        } else {
            None
        },
        LogicalTime::WallClockInstant(t) => if t.well_formed() {
            None
        } else {
            Some(SchedulingError::MalformedInstant)
        },
    }
}

/// Tells whether a logical time is well formed, and if not, why.
pub fn check_time(time: LogicalTime) -> (r: Result<(), SchedulingError>)
    ensures
        r == match spec_check_time(time) {
            Some(e) => Err::<(), SchedulingError>(e),
            None => Ok::<(), SchedulingError>(()),
        },
{
    match time {
        LogicalTime::Immediate => Ok(()),
        LogicalTime::SampleOffset(n) => {
            if n < 0 {
                Err(SchedulingError::NegativeOffset)
            } else {
                Ok(())
            }
        },
        LogicalTime::WallClockInstant(t) => {
            if t.tesimals < crate::time::TESIMALS_PER_SECOND {
                Ok(())
            } else {
                Err(SchedulingError::MalformedInstant)
            }
        },
    }
}

/// Where a change that is due on frame `due` falls in the buffer that starts
/// at frame `start` and has `frames` frames: on its first frame if it is
/// late, on its own frame if that lies in the buffer, and nowhere if it lies
/// beyond: the change then waits for a later buffer.
pub open spec fn spec_offset(due: int, start: int, frames: int) -> Option<int> {
    if due < start {
        Some(0)
    } else if due < start + frames {
        Some(due - start)
    } else {
        None
    }
}

/// The facts of a session that the scheduler resolves against: the sample
/// rate, the number of frames in a buffer, and the latency window.
#[derive(Clone, Copy, Debug)]
pub struct ParameterScheduler {
    sample_rate: u64,
    buffer_frames: u64,
    latency: WallClock,
    latency_frames: u64,
}

impl ParameterScheduler {
    #[verifier::type_invariant]
    closed spec fn inv(self) -> bool {
        &&& 0 < self.sample_rate <= MAX_SAMPLE_RATE
        &&& 0 < self.buffer_frames
        &&& self.latency_frames == spec_frames(self.latency, self.sample_rate)
    }

    /// The sample rate of the session.
    pub closed spec fn spec_sample_rate(self) -> u64 {
        self.sample_rate
    }

    /// The number of frames in a buffer.
    pub closed spec fn spec_buffer_frames(self) -> u64 {
        self.buffer_frames
    }

    /// The latency window.
    pub closed spec fn spec_latency(self) -> WallClock {
        self.latency
    }

    /// The latency window in frames.
    pub open spec fn spec_latency_frames(self) -> int {
        spec_frames(self.spec_latency(), self.spec_sample_rate())
    }

    /// The frame of the render clock on which a change is due. An immediate
    /// change is due on frame zero, which has always passed. A sample offset
    /// counts from `anchor`, the buffer boundary at which the change was
    /// enqueued. An instant is due on the frame on which it falls.
    pub open spec fn spec_due_frame(self, time: LogicalTime, anchor: u64) -> int {
        match time {
            LogicalTime::Immediate => 0,
            LogicalTime::SampleOffset(n) => anchor + n,
            LogicalTime::WallClockInstant(t) => spec_frames(t, self.spec_sample_rate()),
        }
    }

    /// Where a change falls in the buffer that starts at `buffer_start`, with
    /// its value, if it falls in it.
    pub open spec fn spec_resolve(self, change: ParameterChange, anchor: u64, buffer_start: u64)
        -> Option<(u64, u32)> {
        match spec_offset(
            self.spec_due_frame(change.time, anchor),
            buffer_start as int,
            self.spec_buffer_frames() as int,
        ) {
            Some(offset) => Some((offset as u64, change.value)),
            None => None,
        }
    }

    /// A scheduler for a session, if the facts are usable: the sample rate
    /// is above zero and not above `MAX_SAMPLE_RATE`, and a buffer has at
    /// least one frame.
    pub fn new(sample_rate: u64, buffer_frames: u64, latency: WallClock) -> (r: Option<Self>)
        ensures
            r is Some <==> 0 < sample_rate <= MAX_SAMPLE_RATE && 0 < buffer_frames,
            r matches Some(s) ==> s.spec_sample_rate() == sample_rate && s.spec_buffer_frames()
                == buffer_frames && s.spec_latency() == latency,
    {
        if sample_rate == 0 || sample_rate > MAX_SAMPLE_RATE || buffer_frames == 0 {
            return None;
        }
        proof {
            lemma_frames_fit(latency, sample_rate);
        }
        let latency_frames = superseconds_to_samples(latency.seconds, latency.tesimals, sample_rate);
        Some(ParameterScheduler { sample_rate, buffer_frames, latency, latency_frames })
    }

    /// The sample rate of the session.
    pub fn sample_rate(&self) -> (r: u64)
        ensures
            r == self.spec_sample_rate(),
            0 < r <= MAX_SAMPLE_RATE,
    {
        proof {
            use_type_invariant(self);
        }
        self.sample_rate
    }

    /// The number of frames in a buffer.
    pub fn buffer_frames(&self) -> (r: u64)
        ensures
            r == self.spec_buffer_frames(),
            0 < r,
    {
        proof {
            use_type_invariant(self);
        }
        self.buffer_frames
    }

    /// The latency window.
    pub fn latency(&self) -> (r: WallClock)
        ensures
            r == self.spec_latency(),
    {
        self.latency
    }

    /// The latency window in frames: how far ahead of the render clock an
    /// instant has to lie, when a change for it is submitted, for the change
    /// to be in time.
    pub fn latency_frames(&self) -> (r: u64)
        ensures
            r == self.spec_latency_frames(),
    {
        proof {
            use_type_invariant(self);
        }
        self.latency_frames
    }

    /// Resolves a change against the buffer that starts at frame
    /// `buffer_start` of the render clock. `anchor` is the buffer boundary at
    /// which the change was enqueued. A change that is late lands on the
    /// first frame; one that lies beyond the buffer is not resolved and
    /// waits.
    pub fn resolve(&self, change: &ParameterChange, anchor: u64, buffer_start: u64) -> (r: Option<
        (u64, u32),
    >)
        ensures
            r == self.spec_resolve(*change, anchor, buffer_start),
    {
        proof {
            use_type_invariant(self);
        }
        let due: i128 = match change.time {
            LogicalTime::Immediate => 0,
            LogicalTime::SampleOffset(n) => anchor as i128 + n as i128,
            LogicalTime::WallClockInstant(t) => {
                proof {
                    lemma_frames_fit(t, self.sample_rate);
                }
                let frame = superseconds_to_samples(t.seconds, t.tesimals, self.sample_rate);
                frame as i128
            },
        };
        let start = buffer_start as i128;
        if due < start {
            Some((0, change.value))
        } else if due - start < self.buffer_frames as i128 {
            Some(((due - start) as u64, change.value))
        } else {
            None
        }
    }
}

/// A change is resolved in exactly one buffer of a gapless run: if it waits
/// in the buffer that starts at `start`, every later buffer up to the one
/// that holds its frame still defers it, and that buffer resolves it to its
/// own frame.
pub proof fn lemma_deferred_lands_exactly(due: int, start: int, frames: int, later: int)
    requires
        0 < frames,
        start <= later,
        spec_offset(due, start, frames) is None,
        later <= due < later + frames,
    ensures
        spec_offset(due, later, frames) == Some(due - later),
{
}

/// An immediate change falls on the first frame of whatever buffer it is
/// resolved against.
pub proof fn lemma_immediate_is_frame_zero(s: ParameterScheduler, change: ParameterChange, anchor: u64, start: u64)
    requires
        change.time == LogicalTime::Immediate,
        0 < s.spec_buffer_frames(),
    ensures
        s.spec_resolve(change, anchor, start) == Some((0u64, change.value)),
{
}

/// An instant resolves to the frame on which it falls, in the buffer that
/// holds that frame. Buffers before it defer the change and keep it; buffers
/// after it, for which the instant has passed, apply it on their first
/// frame.
pub proof fn lemma_instant_lands_in_its_buffer(
    s: ParameterScheduler,
    change: ParameterChange,
    t: WallClock,
    anchor: u64,
    start: u64,
)
    requires
        change.time == LogicalTime::WallClockInstant(t),
        0 < s.spec_buffer_frames(),
    ensures
        ({
            let frame = spec_frames(t, s.spec_sample_rate());
            let frames = s.spec_buffer_frames();
            &&& start <= frame < start + frames ==> s.spec_resolve(change, anchor, start) == Some(
                ((frame - start) as u64, change.value),
            )
            &&& frame < start ==> s.spec_resolve(change, anchor, start) == Some(
                (0u64, change.value),
            )
            &&& start + frames <= frame ==> s.spec_resolve(change, anchor, start) is None
        }),
{
}

/// What the latency window is for. A change for an instant that lies at
/// least one window ahead of the render clock when it is submitted is never
/// late, as long as the render side has not moved on by more than the window
/// since: every buffer up to then defers the change or gives it the frame
/// on which the instant falls.
pub proof fn lemma_submitted_a_window_ahead(
    s: ParameterScheduler,
    change: ParameterChange,
    t: WallClock,
    anchor: u64,
    start: u64,
)
    requires
        change.time == LogicalTime::WallClockInstant(t),
        0 < s.spec_buffer_frames(),
        spec_frames(t, s.spec_sample_rate()) >= anchor + s.spec_latency_frames(),
        start <= anchor + s.spec_latency_frames(),
    ensures
        s.spec_resolve(change, anchor, start) is None || s.spec_resolve(change, anchor, start)
            == Some(((spec_frames(t, s.spec_sample_rate()) - start) as u64, change.value)),
{
}

} // verus!
