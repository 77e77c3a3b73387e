use vstd::prelude::*;

use crate::fps::Fps;

verus! {

/// Levels of jank, from none to the worst.
pub const NO_JANK: u32 = 0;
pub const SIMPLE_JANK: u32 = 1;
pub const BIG_JANK: u32 = 3;
pub const HEAVY_JANK: u32 = 4;
pub const SUPER_JANK: u32 = 8;

/// The smallest frame time excess that counts: the target frame time
/// divided by the target frame rate, or zero where that rate is zero.
pub open spec fn min_jank_scale_spec(target: Fps) -> nat {
    if target.fps == 0 {
        0
    } else {
        target.frametime as nat / target.fps as nat
    }
}

/// The jank level of a smoothed frame time `cur` against the target frame
/// time `target`, with jank scale `scale` and fix time `fix`, all in
/// nanoseconds: how far `cur` exceeds `target`, measured against one, two,
/// three and five scales past the fix time.
pub open spec fn jank_level_spec(cur: int, target: int, scale: int, fix: int) -> u32 {
    let diff = cur - target;
    if diff <= scale + fix {
        NO_JANK
    } else if diff <= 2 * scale + fix {
        SIMPLE_JANK
    } else if diff <= 3 * scale + fix {
        BIG_JANK
    } else if diff <= 5 * scale + fix {
        HEAVY_JANK
    } else {
        SUPER_JANK
    }
}

/// The target that an input read gives: none reads as the default.
pub open spec fn input_or_default(input: Option<(Fps, u64)>) -> (Fps, u64) {
    match input {
        Some(i) => i,
        None => (Fps { fps: 0, frametime: 0 }, 0),
    }
}

/// The state that the first input read gives.
pub open spec fn state_of(input: Option<(Fps, u64)>) -> JankState {
    let target = input_or_default(input).0;
    JankState { target_fps: target, min_jank_scale: min_jank_scale_spec(target) as u64 }
}

/// The state after one more input: a new target replaces the old one with
/// its scale, the same target leaves the state as it is.
pub open spec fn next_state(s: JankState, input: Option<(Fps, u64)>) -> JankState {
    let up = input_or_default(input).0;
    if up != s.target_fps {
        JankState { target_fps: up, min_jank_scale: min_jank_scale_spec(up) as u64 }
    } else {
        s
    }
}

/// The state after the inputs of `inputs` in turn, from `s`.
pub open spec fn run(s: JankState, inputs: Seq<Option<(Fps, u64)>>) -> JankState
    decreases inputs.len(),
{
    if inputs.len() == 0 {
        s
    } else {
        run(next_state(s, inputs[0]), inputs.drop_first())
    }
}

/// The scale of a target fits in 64 bits.
proof fn lemma_scale_fits(target: Fps)
    ensures
        min_jank_scale_spec(target) <= target.frametime,
{
    if target.fps != 0 {
        let f = target.fps as nat;
        let t = target.frametime as nat;
        assert(t / f <= t) by (nonlinear_arith)
            requires
                f >= 1,
        ;
    }
}

/// The jank scale of `target`, in nanoseconds.
pub fn min_jank_scale(target: Fps) -> (r: u64)
    ensures
        r == min_jank_scale_spec(target),
        target.fps > 0 ==> r * target.fps <= target.frametime < (r + 1) * target.fps,
        target.fps == 0 ==> r == 0,
{
    proof {
        law_jank_scale_is_frametime_over_rate(target);
    }
    if target.fps == 0 {
        0
    } else {
        target.frametime / (target.fps as u64)
    }
}

/// What the analysis loop does after it has read the input.
#[derive(Debug, Clone, Copy, PartialEq, Eq, Structural)]
pub enum JankStep {
    /// The target changed: restart the smoothing from the new target's
    /// frame time and report nothing this time.
    Retarget,
    /// The target stands: measure the frame, smooth it and report its level
    /// with this fix time, in nanoseconds.
    Measure { fix_time: u64 },
}

/// The state of the jank analysis between two frames.
pub struct JankState {
    /// The target that the frames are measured against.
    pub target_fps: Fps,
    /// The jank scale of that target, in nanoseconds.
    pub min_jank_scale: u64,
}

impl JankState {
    /// Whether the jank scale is that of the target, as every state that
    /// `new` and `on_input` give has it.
    pub open spec fn consistent(&self) -> bool {
        self.min_jank_scale == min_jank_scale_spec(self.target_fps)
    }

    /// The state before the first frame, from the first input read.
    pub fn new(input: Option<(Fps, u64)>) -> (s: JankState)
        ensures
            s.target_fps == input_or_default(input).0,
            s.min_jank_scale == min_jank_scale_spec(s.target_fps),
            s.consistent(),
            s == state_of(input),
    {
        let target_fps = match input {
            Some((t, _)) => t,
            None => Fps::default(),
        };
        JankState { target_fps, min_jank_scale: min_jank_scale(target_fps) }
    }

    /// Takes the input read for this frame and says what to do: a new
    /// target replaces the old one; the same target gives the fix time to
    /// measure with, at most the target frame time.
    pub fn on_input(&mut self, input: Option<(Fps, u64)>) -> (step: JankStep)
        ensures
            ({
                let (up, fix) = input_or_default(input);
                if up != old(self).target_fps {
                    &&& step == JankStep::Retarget
                    &&& final(self).target_fps == up
                    &&& final(self).min_jank_scale == min_jank_scale_spec(up)
                } else {
                    &&& step == JankStep::Measure {
                        fix_time: if fix <= old(self).target_fps.frametime {
                            fix
                        } else {
                            old(self).target_fps.frametime
                        },
                    }
                    &&& final(self).target_fps == old(self).target_fps
                    &&& final(self).min_jank_scale == old(self).min_jank_scale
                }
            }),
            *final(self) == next_state(*old(self), input),
            old(self).consistent() ==> final(self).consistent(),
            input_or_default(input).0 != old(self).target_fps ==> final(self).consistent(),
    {
        let (up, fix) = match input {
            Some(i) => i,
            None => (Fps::default(), 0),
        };
        let fix_time = if fix <= self.target_fps.frametime {
            fix
        } else {
            self.target_fps.frametime
        };
        if up != self.target_fps {
            self.target_fps = up;
            self.min_jank_scale = min_jank_scale(up);
            JankStep::Retarget
        } else {
            JankStep::Measure { fix_time }
        }
    }

    /// The jank level of a frame whose smoothed frame time, rounded up to a
    /// whole nanosecond, is `cur_frametime`, with fix time `fix_time`.
    pub fn level(&self, cur_frametime: u64, fix_time: u64) -> (r: u32)
        ensures
            r == jank_level_spec(
                cur_frametime as int,
                self.target_fps.frametime as int,
                self.min_jank_scale as int,
                fix_time as int,
            ),
    {
        let cur = cur_frametime as u128;
        let base = self.target_fps.frametime as u128 + fix_time as u128;
        let scale = self.min_jank_scale as u128;
        if cur <= base + scale {
            NO_JANK
        } else if cur <= base + 2 * scale {
            SIMPLE_JANK
        } else if cur <= base + 3 * scale {
            BIG_JANK
        } else if cur <= base + 5 * scale {
            HEAVY_JANK
        } else {
            SUPER_JANK
        }
    }
}

/// A longer frame never gets a lower jank level.
pub proof fn lemma_jank_level_monotone(cur1: int, cur2: int, target: int, scale: int, fix: int)
    requires
        cur1 <= cur2,
        scale >= 0,
    ensures
        jank_level_spec(cur1, target, scale, fix) <= jank_level_spec(cur2, target, scale, fix),
{
}

/// A frame no longer than the target plus one scale past the fix time has
/// no jank, and every level is one of the five.
pub proof fn lemma_jank_level_range(cur: int, target: int, scale: int, fix: int)
    ensures
        cur <= target + scale + fix ==> jank_level_spec(cur, target, scale, fix) == NO_JANK,
        jank_level_spec(cur, target, scale, fix) == NO_JANK || jank_level_spec(
            cur,
            target,
            scale,
            fix,
        ) == SIMPLE_JANK || jank_level_spec(cur, target, scale, fix) == BIG_JANK
            || jank_level_spec(cur, target, scale, fix) == HEAVY_JANK || jank_level_spec(
            cur,
            target,
            scale,
            fix,
        ) == SUPER_JANK,
{
}

/// While the target frame rate is zero, as it is with no input, a
/// consistent state has no jank scale, and a frame is either without jank
/// or of the worst level.
pub proof fn law_zero_rate_levels(s: JankState, cur: int, fix: int)
    requires
        s.consistent(),
        s.target_fps.fps == 0,
    ensures
        s.min_jank_scale == 0,
        jank_level_spec(cur, s.target_fps.frametime as int, s.min_jank_scale as int, fix)
            == NO_JANK || jank_level_spec(
            cur,
            s.target_fps.frametime as int,
            s.min_jank_scale as int,
            fix,
        ) == SUPER_JANK,
{
}

/// Every state of a run, from the first input on, has the scale of its
/// target.
pub proof fn lemma_run_consistent(s: JankState, inputs: Seq<Option<(Fps, u64)>>)
    requires
        s.consistent(),
    ensures
        run(s, inputs).consistent(),
    decreases inputs.len(),
{
    if inputs.len() > 0 {
        let up = input_or_default(inputs[0]).0;
        lemma_scale_fits(up);
        lemma_run_consistent(next_state(s, inputs[0]), inputs.drop_first());
    }
}

/// Over a whole run, from the first input through any later inputs, every
/// level is one of the five, and while the target frame rate is zero, as
/// it is with no input, only no jank or the worst level is reported.
pub proof fn law_run_levels(
    first: Option<(Fps, u64)>,
    inputs: Seq<Option<(Fps, u64)>>,
    cur: int,
    fix: int,
)
    ensures
        run(state_of(first), inputs).consistent(),
        ({
            let s = run(state_of(first), inputs);
            let l = jank_level_spec(
                cur,
                s.target_fps.frametime as int,
                s.min_jank_scale as int,
                fix,
            );
            &&& l == NO_JANK || l == SIMPLE_JANK || l == BIG_JANK || l == HEAVY_JANK || l
                == SUPER_JANK
            &&& s.target_fps.fps == 0 ==> (l == NO_JANK || l == SUPER_JANK)
        }),
{
    lemma_scale_fits(input_or_default(first).0);
    lemma_run_consistent(state_of(first), inputs);
    let s = run(state_of(first), inputs);
    lemma_jank_level_range(cur, s.target_fps.frametime as int, s.min_jank_scale as int, fix);
    if s.target_fps.fps == 0 {
        law_zero_rate_levels(s, cur, fix);
    }
}

/// The jank scale of a target with a nonzero rate is its frame time
/// divided by its rate, rounded down; a zero rate has no scale.
pub proof fn law_jank_scale_is_frametime_over_rate(t: Fps)
    ensures
        t.fps > 0 ==> min_jank_scale_spec(t) * t.fps <= t.frametime,
        t.fps > 0 ==> t.frametime < (min_jank_scale_spec(t) + 1) * t.fps,
        t.fps == 0 ==> min_jank_scale_spec(t) == 0,
{
    if t.fps > 0 {
        let f = t.fps as nat;
        let ft = t.frametime as nat;
        let q = ft / f;
        assert(q * f <= ft && ft < (q + 1) * f) by (nonlinear_arith)
            requires
                f > 0,
                q == ft / f,
        ;
    }
}

/// Each level is a band of the excess of the frame time over the target:
/// up to one scale past the whole fix time is no jank, then up to two
/// scales simple jank, up to three big jank, up to five heavy jank, and
/// beyond that the worst.
pub proof fn law_jank_bands(cur: int, target: int, scale: int, fix: int)
    requires
        scale >= 0,
    ensures
        cur - target <= scale + fix ==> jank_level_spec(cur, target, scale, fix) == 0,
        scale + fix < cur - target <= 2 * scale + fix ==> jank_level_spec(cur, target, scale, fix)
            == 1,
        2 * scale + fix < cur - target <= 3 * scale + fix ==> jank_level_spec(
            cur,
            target,
            scale,
            fix,
        ) == 3,
        3 * scale + fix < cur - target <= 5 * scale + fix ==> jank_level_spec(
            cur,
            target,
            scale,
            fix,
        ) == 4,
        5 * scale + fix < cur - target ==> jank_level_spec(cur, target, scale, fix) == 8,
{
}

} // verus!
