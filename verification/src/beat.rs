//! Musical time as an exact fixed-point number of beats.

use vstd::prelude::*;

verus! {

/// The number of ticks in one beat: the resolution of musical time.
pub const TICKS_PER_BEAT: i64 = 960;

/// The largest number of whole beats that a `Beat` holds, either side of
/// zero.
pub const MAX_BEATS: i64 = 0x8000_0000;

/// The largest number of ticks that a `Beat` holds, either side of zero.
pub const MAX_TICKS: i64 = 2_061_584_302_080;

/// A position or a length in musical time, exact to one tick.
#[derive(Clone, Copy, Debug, PartialEq, Eq, PartialOrd, Ord, Hash, Structural)]
pub struct Beat {
    ticks: i64,
}

impl View for Beat {
    type V = int;

    /// The beat in ticks.
    closed spec fn view(&self) -> int {
        self.ticks as int
    }
}

impl Beat {
    /// Every beat lies within `MAX_TICKS` of zero.
    #[verifier::type_invariant]
    pub open spec fn in_range(&self) -> bool {
        -MAX_TICKS <= self@ <= MAX_TICKS
    }

    /// The beat of `ticks` ticks, if that lies within `MAX_TICKS` of zero.
    pub fn new(ticks: i64) -> (r: Option<Beat>)
        ensures
            r.is_some() <==> -MAX_TICKS <= ticks <= MAX_TICKS,
            r matches Some(b) ==> b@ == ticks,
    {
        if -MAX_TICKS <= ticks && ticks <= MAX_TICKS {
            Some(Beat { ticks })
        } else {
            None
        }
    }

    /// The beat of `ticks` ticks, or the nearest beat that there is: musical
    /// time ends `MAX_TICKS` either side of zero.
    pub fn saturating(ticks: i128) -> (r: Beat)
        ensures
            r@ == if ticks < -MAX_TICKS {
                -MAX_TICKS as int
            } else if ticks > MAX_TICKS {
                MAX_TICKS as int
            } else {
                ticks as int
            },
    {
        if ticks < -(MAX_TICKS as i128) {
            Beat { ticks: -MAX_TICKS }
        } else if ticks > MAX_TICKS as i128 {
            Beat { ticks: MAX_TICKS }
        } else {
            Beat { ticks: ticks as i64 }
        }
    }

    /// The position of a whole number of beats.
    pub fn from_beats(beats: i32) -> (r: Beat)
        ensures
            r@ == beats * TICKS_PER_BEAT,
    {
        Beat { ticks: (beats as i64) * TICKS_PER_BEAT }
    }

    /// The beat in ticks.
    pub fn ticks(&self) -> (t: i64)
        ensures
            t == self@,
            -MAX_TICKS <= t <= MAX_TICKS,
    {
        proof {
            use_type_invariant(self);
        }
        self.ticks
    }

    /// The sum of two beats, if it lies within `MAX_TICKS` of zero.
    pub fn checked_add(self, other: Beat) -> (r: Option<Beat>)
        ensures
            r.is_some() <==> -MAX_TICKS <= self@ + other@ <= MAX_TICKS,
            r matches Some(b) ==> b@ == self@ + other@,
    {
        Beat::new(self.ticks() + other.ticks())
    }

    /// The difference of two beats, if it lies within `MAX_TICKS` of zero.
    pub fn checked_sub(self, other: Beat) -> (r: Option<Beat>)
        ensures
            r.is_some() <==> -MAX_TICKS <= self@ - other@ <= MAX_TICKS,
            r matches Some(b) ==> b@ == self@ - other@,
    {
        Beat::new(self.ticks() - other.ticks())
    }

    /// The beat scaled by a whole factor, if that lies within `MAX_TICKS` of
    /// zero.
    pub fn checked_scale(self, factor: i32) -> (r: Option<Beat>)
        ensures
            r.is_some() <==> -MAX_TICKS <= self@ * factor <= MAX_TICKS,
            r matches Some(b) ==> b@ == self@ * factor,
    {
        let ticks = self.ticks();
        assert(-0x4000_0000_0000_0000_0000_0000 <= (ticks as int) * (factor as int)
            <= 0x4000_0000_0000_0000_0000_0000) by (nonlinear_arith)
            requires
                -2_061_584_302_080 <= ticks as int <= 2_061_584_302_080,
                -0x8000_0000 <= factor as int <= 0x7fff_ffff,
        ;
        let scaled: i128 = (ticks as i128) * (factor as i128);
        if -(MAX_TICKS as i128) <= scaled && scaled <= MAX_TICKS as i128 {
            Some(Beat { ticks: scaled as i64 })
        } else {
            None
        }
    }
}

} // verus!
