//! Game time in ticks and the phase schedule of acting mobs.

use vstd::prelude::*;

use crate::arith::{rem_euclid_i64, trunc_div};

verus! {

/// How many move phases does a complete turn contain.
pub const PHASES_IN_TURN: i64 = 12;

/// An opaque representation of a time instant.
///
/// The unit of time is a tick that's 1/60th of a second.
#[derive(Copy, Clone, PartialEq, Eq, Structural, Debug, Hash)]
pub struct Instant(pub i64);

/// Whether a mob with the given speed acts at the given tick.
pub open spec fn spec_is_action_frame(t: int, speed: int) -> bool {
    if speed == 0 {
        false
    } else {
        let phase = t % PHASES_IN_TURN as int;
        trunc_div(phase * speed, PHASES_IN_TURN as int) != trunc_div(
            (phase + 1) * speed,
            PHASES_IN_TURN as int,
        )
    }
}

/// Number of action frames of a mob with the given speed among the `n`
/// consecutive ticks starting at `t`.
pub open spec fn action_frames_in(t: int, speed: int, n: nat) -> nat
    decreases n,
{
    if n == 0 {
        0
    } else {
        action_frames_in(t, speed, (n - 1) as nat) + if spec_is_action_frame(
            t + n - 1,
            speed,
        ) {
            1nat
        } else {
            0nat
        }
    }
}

impl Default for Instant {
    fn default() -> (r: Instant)
        ensures
            r.0 == 0,
    {
        Instant(0)
    }
}

impl Instant {
    /// Return whether mobs with the given speed get to act on this time
    /// point.
    pub fn is_action_frame(self, speed: i8) -> (r: bool)
        ensures
            r == spec_is_action_frame(self.0 as int, speed as int),
    {
        let speed = speed as i64;
        if speed == 0 {
            false
        } else {
            let phase = rem_euclid_i64(self.0, PHASES_IN_TURN);
            assert(-2000 <= phase * speed <= 2000 && -2000 <= (phase + 1) * speed <= 2000)
                by (nonlinear_arith)
                requires
                    0 <= phase < 12,
                    -128 <= speed <= 127,
            ;
            phase * speed / PHASES_IN_TURN != (phase + 1) * speed / PHASES_IN_TURN
        }
    }

    /// The instant a number of ticks later.
    pub fn add(self, rhs: i64) -> (r: Instant)
        requires
            i64::MIN <= self.0 + rhs <= i64::MAX,
        ensures
            r.0 == self.0 + rhs,
    {
        Instant(self.0 + rhs)
    }

    pub fn add_assign(&mut self, rhs: i64)
        requires
            i64::MIN <= old(self).0 + rhs <= i64::MAX,
        ensures
            final(self).0 == old(self).0 + rhs,
    {
        self.0 = self.0 + rhs;
    }

    /// The instant a number of ticks earlier.
    pub fn sub(self, rhs: i64) -> (r: Instant)
        requires
            i64::MIN <= self.0 - rhs <= i64::MAX,
        ensures
            r.0 == self.0 - rhs,
    {
        Instant(self.0 - rhs)
    }

    pub fn sub_assign(&mut self, rhs: i64)
        requires
            i64::MIN <= old(self).0 - rhs <= i64::MAX,
        ensures
            final(self).0 == old(self).0 - rhs,
    {
        self.0 = self.0 - rhs;
    }

    /// Number of ticks from `earlier` to this instant.
    pub fn since(self, earlier: Instant) -> (r: i64)
        requires
            i64::MIN <= self.0 - earlier.0 <= i64::MAX,
        ensures
            r == self.0 - earlier.0,
    {
        self.0 - earlier.0
    }

    /// Order of instants.
    pub fn is_before(self, other: Instant) -> (r: bool)
        ensures
            r == (self.0 < other.0),
    {
        self.0 < other.0
    }
}

/// A mob with zero speed never acts.
pub proof fn lemma_zero_speed_never_acts(t: int)
    ensures
        !spec_is_action_frame(t, 0),
{
}

/// The action schedule repeats every turn.
pub proof fn lemma_action_frame_periodic(t: int, speed: int)
    ensures
        spec_is_action_frame(t, speed) == spec_is_action_frame(t + PHASES_IN_TURN, speed),
{
    assert((t + 12) % 12 == t % 12);
}

/// Floor-quotient of `p * s` by the turn length for a nonnegative speed.
spec fn fq(p: int, s: int) -> int {
    (p * s) / 12
}

proof fn lemma_trunc_neg(p: int, s: int)
    requires
        0 <= p,
        s < 0,
    ensures
        trunc_div(p * s, 12) == -fq(p, -s),
{
    assert(p * s == -(p * (-s))) by (nonlinear_arith);
    assert(p * (-s) >= 0) by (nonlinear_arith)
        requires
            0 <= p,
            s < 0,
    ;
    if p * s == 0 {
        assert(p * (-s) == 0);
    }
}

/// The schedule of a mob depends on the magnitude of its speed only.
proof fn lemma_frame_abs(t: int, s: int)
    requires
        s != 0,
    ensures
        spec_is_action_frame(t, s) == (fq(t % 12, abs_int(s)) != fq(t % 12 + 1, abs_int(s))),
{
    let p = t % 12;
    assert(0 <= p < 12);
    if s > 0 {
        assert(p * s >= 0) by (nonlinear_arith)
            requires
                0 <= p,
                s > 0,
        ;
        assert((p + 1) * s >= 0) by (nonlinear_arith)
            requires
                0 <= p,
                s > 0,
        ;
    } else {
        lemma_trunc_neg(p, s);
        lemma_trunc_neg(p + 1, s);
    }
}

pub open spec fn abs_int(v: int) -> int {
    if v < 0 {
        -v
    } else {
        v
    }
}

pub open spec fn min_int(a: int, b: int) -> int {
    if a < b {
        a
    } else {
        b
    }
}

/// Consecutive quotients differ by exactly one for speeds of a turn or more
/// and by at most one for slower speeds.
proof fn lemma_fq_step(p: int, s: int)
    requires
        0 <= p,
        0 <= s,
    ensures
        s <= 12 ==> (fq(p + 1, s) == fq(p, s) || fq(p + 1, s) == fq(p, s) + 1),
        s >= 12 ==> fq(p + 1, s) > fq(p, s),
{
    assert((p + 1) * s == p * s + s) by (nonlinear_arith);
    assert(p * s >= 0) by (nonlinear_arith)
        requires
            0 <= p,
            0 <= s,
    ;
}

/// Count of quotient changes among phases `a..b`.
spec fn phase_changes(a: int, b: int, s: int) -> nat
    decreases b - a,
{
    if b <= a {
        0
    } else {
        phase_changes(a, b - 1, s) + if fq(b - 1, s) != fq(b, s) {
            1nat
        } else {
            0nat
        }
    }
}

proof fn lemma_phase_changes(a: int, b: int, s: int)
    requires
        0 <= a <= b,
        0 <= s <= 12,
    ensures
        phase_changes(a, b, s) == fq(b, s) - fq(a, s),
    decreases b - a,
{
    if b > a {
        lemma_phase_changes(a, b - 1, s);
        lemma_fq_step(b - 1, s);
    }
}

proof fn lemma_phase_changes_fast(a: int, b: int, s: int)
    requires
        0 <= a <= b,
        s >= 12,
    ensures
        phase_changes(a, b, s) == b - a,
    decreases b - a,
{
    if b > a {
        lemma_phase_changes_fast(a, b - 1, s);
        lemma_fq_step(b - 1, s);
    }
}

/// Ticks within one turn that do not wrap around the turn boundary follow
/// the phase changes.
proof fn lemma_window_no_wrap(t: int, s: int, n: nat)
    requires
        s != 0,
        t % 12 + n <= 12,
    ensures
        action_frames_in(t, s, n) == phase_changes(t % 12, t % 12 + n, abs_int(s)),
    decreases n,
{
    if n > 0 {
        lemma_window_no_wrap(t, s, (n - 1) as nat);
        let u = t + n - 1;
        assert(u % 12 == t % 12 + n - 1);
        lemma_frame_abs(u, s);
    }
}

/// Splitting a window of ticks.
proof fn lemma_window_split(t: int, s: int, a: nat, b: nat)
    ensures
        action_frames_in(t, s, a + b) == action_frames_in(t, s, a) + action_frames_in(
            t + a,
            s,
            b,
        ),
    decreases b,
{
    if b > 0 {
        lemma_window_split(t, s, a, (b - 1) as nat);
        assert(t + (a + b) - 1 == (t + a) + b - 1);
    }
}

/// Over any full turn, a mob acts as many times as its speed, up to one
/// action for every phase of the turn.
pub proof fn lemma_actions_per_turn(t: int, speed: int)
    ensures
        action_frames_in(t, speed, PHASES_IN_TURN as nat) == min_int(abs_int(speed), 12),
{
    if speed == 0 {
        lemma_zero_window(t, PHASES_IN_TURN as nat);
    } else {
        let p0 = t % 12;
        let k = (12 - p0) as nat;
        let rest = p0 as nat;
        lemma_window_split(t, speed, k, rest);
        lemma_window_no_wrap(t, speed, k);
        let t2 = t + k;
        assert(t2 % 12 == 0);
        lemma_window_no_wrap(t2, speed, rest);
        let s = abs_int(speed);
        if s <= 12 {
            lemma_phase_changes(p0, 12, s);
            lemma_phase_changes(0, p0, s);
            assert(fq(0, s) == 0);
            assert(fq(12, s) == s) by (nonlinear_arith)
                requires
                    fq(12, s) == (12 * s) / 12,
            ;
        } else {
            lemma_phase_changes_fast(p0, 12, s);
            lemma_phase_changes_fast(0, p0, s);
        }
    }
}

proof fn lemma_zero_window(t: int, n: nat)
    ensures
        action_frames_in(t, 0, n) == 0,
    decreases n,
{
    if n > 0 {
        lemma_zero_window(t, (n - 1) as nat);
    }
}

} // verus!
