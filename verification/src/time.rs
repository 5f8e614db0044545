//! Instants on the session clock and their conversion to sample frames.

use vstd::prelude::*;

verus! {

/// The number of subsample units in one second. It is divisible by every
/// common sample rate, so whole frames convert without loss.
pub const TESIMALS_PER_SECOND: u32 = 282_240_000;

/// The highest sample rate that the conversions accept.
pub const MAX_SAMPLE_RATE: u64 = 0x8000_0000;

/// An instant on the session clock: whole seconds since the render clock
/// started, and a fraction of a second counted in units of
/// `1 / TESIMALS_PER_SECOND`.
#[derive(Clone, Copy, Debug, PartialEq, Eq, Hash, Structural)]
pub struct WallClock {
    pub seconds: u32,
    pub tesimals: u32,
}

/// The frame on which an instant falls at a sample rate, rounded down.
pub open spec fn spec_frames(t: WallClock, rate: u64) -> int {
    t.seconds as int * rate as int + (t.tesimals as int * rate as int) / (
    TESIMALS_PER_SECOND as int)
}

/// At an accepted sample rate the frame of every instant fits in 64 bits,
/// and so do the products it is made of.
pub proof fn lemma_frames_fit(t: WallClock, rate: u64)
    requires
        rate <= MAX_SAMPLE_RATE,
    ensures
        0 <= t.seconds as int * rate as int <= u64::MAX,
        0 <= t.tesimals as int * rate as int <= u64::MAX,
        0 <= spec_frames(t, rate) <= u64::MAX,
{
    let s = t.seconds as int;
    let f = t.tesimals as int;
    let r = rate as int;
    assert(0 <= s * r <= 0xFFFF_FFFF * 0x8000_0000) by (nonlinear_arith)
        requires
            0 <= s <= 0xFFFF_FFFF,
            0 <= r <= 0x8000_0000,
    ;
    assert(0 <= f * r <= 0xFFFF_FFFF * 0x8000_0000) by (nonlinear_arith)
        requires
            0 <= f <= 0xFFFF_FFFF,
            0 <= r <= 0x8000_0000,
    ;
    let p = f * r;
    assert(0 <= p / 282_240_000 <= p);
}

/// Calls `knyst::time::Superseconds::to_samples` on the instant made by
/// `Superseconds::new(seconds, tesimals)`. The contract repeats the formula of
/// that function: the seconds times the rate, plus the fraction times the
/// rate divided by the number of subsample units in a second, rounded down.
/// The function computes in 64 bits, so the inputs on which a product or the
/// sum would not fit are left out.
#[verifier::external_body]
pub(crate) fn superseconds_to_samples(seconds: u32, tesimals: u32, sample_rate: u64) -> (r: u64)
    requires
        seconds as int * sample_rate as int <= u64::MAX,
        tesimals as int * sample_rate as int <= u64::MAX,
        spec_frames(WallClock { seconds, tesimals }, sample_rate) <= u64::MAX,
    ensures
        r == spec_frames(WallClock { seconds, tesimals }, sample_rate),
{
    knyst::time::Superseconds::new(seconds, tesimals).to_samples(sample_rate)
}

impl WallClock {
    /// The fraction is less than a second.
    pub open spec fn well_formed(self) -> bool {
        self.tesimals < TESIMALS_PER_SECOND
    }

    /// The instant that lies so many subsample units after the start of the
    /// session clock; none where its seconds do not fit in 32 bits.
    pub fn from_tesimals(units: u64) -> (r: Option<WallClock>)
        ensures
            r is Some <==> units / (TESIMALS_PER_SECOND as u64) <= u32::MAX,
            r matches Some(w) ==> w.well_formed() && w.seconds * TESIMALS_PER_SECOND + w.tesimals
                == units,
    {
        let seconds: u64 = units / (TESIMALS_PER_SECOND as u64);
        if seconds > u32::MAX as u64 {
            return None;
        }
        let tesimals: u64 = units % (TESIMALS_PER_SECOND as u64);
        Some(WallClock { seconds: seconds as u32, tesimals: tesimals as u32 })
    }

    /// The frame on which the instant falls at a sample rate, rounded down;
    /// none where the rate is above `MAX_SAMPLE_RATE`.
    pub fn to_frames(&self, sample_rate: u64) -> (r: Option<u64>)
        ensures
            sample_rate <= MAX_SAMPLE_RATE ==> r is Some && r->Some_0 == spec_frames(
                *self,
                sample_rate,
            ),
            sample_rate > MAX_SAMPLE_RATE ==> r is None,
    {
        if sample_rate <= MAX_SAMPLE_RATE {
            proof {
                lemma_frames_fit(*self, sample_rate);
            }
            Some(superseconds_to_samples(self.seconds, self.tesimals, sample_rate))
        } else {
            None
        }
    }
}

} // verus!
