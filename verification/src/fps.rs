use vstd::prelude::*;

verus! {

/// Nanoseconds in one second.
pub const NANOS_PER_SEC: u64 = 1_000_000_000;

/// A frame rate together with the length of one frame.
///
/// `frametime` is a duration in nanoseconds.
#[derive(Debug, Clone, Copy, PartialEq, Eq, Structural)]
pub struct Fps {
    pub fps: u32,
    pub frametime: u64,
}

/// The frame time, in nanoseconds, of `f` frames per second: one second
/// divided by `f`, or zero where `f` is zero.
pub open spec fn frametime_of_fps(f: nat) -> nat {
    if f == 0 {
        0
    } else {
        NANOS_PER_SEC as nat / f
    }
}

/// The frame rate of frames `d` nanoseconds long, rounded down.
pub open spec fn fps_of_frametime(d: nat) -> nat
    recommends
        d > 0,
{
    NANOS_PER_SEC as nat / d
}

/// Whether the field by field sum of `a` and `b` fits the fields' types.
pub open spec fn fits_sum(a: Fps, b: Fps) -> bool {
    &&& a.fps + b.fps <= u32::MAX
    &&& a.frametime + b.frametime <= u64::MAX
}

/// The field by field sum of `a` and `b`.
pub open spec fn fps_sum(a: Fps, b: Fps) -> Fps {
    Fps { fps: (a.fps + b.fps) as u32, frametime: (a.frametime + b.frametime) as u64 }
}

/// Whether `b` can be taken from `a` field by field.
pub open spec fn fits_difference(a: Fps, b: Fps) -> bool {
    &&& b.fps <= a.fps
    &&& b.frametime <= a.frametime
}

/// The field by field difference of `a` and `b`.
pub open spec fn fps_difference(a: Fps, b: Fps) -> Fps {
    Fps { fps: (a.fps - b.fps) as u32, frametime: (a.frametime - b.frametime) as u64 }
}

impl Fps {
    /// The frame rate `f` and its frame time.
    pub fn from_fps(f: u32) -> (r: Self)
        ensures
            r.fps == f,
            r.frametime == frametime_of_fps(f as nat),
    {
        let frametime = if f == 0 {
            0
        } else {
            NANOS_PER_SEC / (f as u64)
        };
        Fps { fps: f, frametime }
    }

    /// Frames of length `d` nanoseconds and their frame rate.
    pub fn from_frametime(d: u64) -> (r: Self)
        requires
            d > 0,
        ensures
            r.frametime == d,
            r.fps == fps_of_frametime(d as nat),
    {
        let fps = NANOS_PER_SEC / d;
        Fps { fps: fps as u32, frametime: d }
    }
}

impl Default for Fps {
    fn default() -> (r: Self)
        ensures
            r.fps == 0,
            r.frametime == 0,
    {
        Fps { fps: 0, frametime: 0 }
    }
}

impl core::ops::Add for Fps {
    type Output = Fps;

    /// Field by field sum.
    fn add(self, rhs: Fps) -> (r: Fps) {
        Fps { fps: self.fps + rhs.fps, frametime: self.frametime + rhs.frametime }
    }
}

impl vstd::std_specs::ops::AddSpecImpl for Fps {
    open spec fn obeys_add_spec() -> bool {
        true
    }

    open spec fn add_req(self, rhs: Fps) -> bool {
        fits_sum(self, rhs)
    }

    open spec fn add_spec(self, rhs: Fps) -> Fps {
        fps_sum(self, rhs)
    }
}

impl core::ops::Sub for Fps {
    type Output = Fps;

    /// Field by field difference.
    fn sub(self, rhs: Fps) -> (r: Fps) {
        Fps { fps: self.fps - rhs.fps, frametime: self.frametime - rhs.frametime }
    }
}

impl vstd::std_specs::ops::SubSpecImpl for Fps {
    open spec fn obeys_sub_spec() -> bool {
        true
    }

    open spec fn sub_req(self, rhs: Fps) -> bool {
        fits_difference(self, rhs)
    }

    open spec fn sub_spec(self, rhs: Fps) -> Fps {
        fps_difference(self, rhs)
    }
}

/// Adding a frame rate and taking it away again gives back the first.
pub proof fn law_add_then_sub(a: Fps, b: Fps)
    requires
        fits_sum(a, b),
    ensures
        fits_difference(fps_sum(a, b), b),
        fps_difference(fps_sum(a, b), b) == a,
{
}

/// The frame rate of the frame time of `f` frames per second is at least
/// `f`, and exactly `f` where `f` divides a second or `f * f` is at most a
/// second in nanoseconds (every `f` up to 31622).
pub proof fn law_fps_round_trip(f: nat)
    requires
        0 < f <= NANOS_PER_SEC,
    ensures
        frametime_of_fps(f) > 0,
        fps_of_frametime(frametime_of_fps(f)) >= f,
        (NANOS_PER_SEC as nat) % f == 0 ==> fps_of_frametime(frametime_of_fps(f)) == f,
        f * f <= NANOS_PER_SEC ==> fps_of_frametime(frametime_of_fps(f)) == f,
        f <= 31622 ==> fps_of_frametime(frametime_of_fps(f)) == f,
{
    let n = NANOS_PER_SEC as nat;
    let t = n / f;
    assert(t * f <= n && n < (t + 1) * f && t > 0) by (nonlinear_arith)
        requires
            0 < f <= n,
            t == n / f,
    ;
    assert(n / t >= f) by (nonlinear_arith)
        requires
            t * f <= n,
            t > 0,
    ;
    if f <= 31622 {
        assert(f * f <= n) by (nonlinear_arith)
            requires
                f <= 31622,
                n == 1_000_000_000,
        ;
    }
    if f * f <= n {
        let r = n % f;
        assert(n == t * f + r && r < f) by (nonlinear_arith)
            requires
                t == n / f,
                r == n % f,
                f > 0,
        ;
        assert(t >= f) by (nonlinear_arith)
            requires
                f * f <= n,
                n < (t + 1) * f,
                f > 0,
        ;
        assert(n / t == f) by (nonlinear_arith)
            requires
                n == t * f + r,
                r < f,
                f <= t,
                t > 0,
        ;
    }
    if n % f == 0 {
        assert(n / t == f) by (nonlinear_arith)
            requires
                t == n / f,
                n % f == 0,
                f > 0,
                t > 0,
        ;
    }
}

} // verus!
