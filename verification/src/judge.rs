//! The judge: classify a key-press time against the nearest beat on the
//! grid `0, s, 2s, 3s, ...` within a tolerance margin.
//!
//! The judge is stateless: it rounds to the nearest grid point, beat 0
//! included, although the clock never schedules a beat at time 0. A press
//! just after the start is therefore judged against a beat that is never
//! played; that asymmetry is intentional and kept.

use vstd::prelude::*;
use vstd::arithmetic::div_mod::lemma_fundamental_div_mod;
use vstd::arithmetic::mul::lemma_mul_inequality;

verus! {

/// Whether a press fell within the margin of its nearest beat.
#[derive(Clone, Copy, Debug, PartialEq, Eq, Structural)]
pub enum Verdict {
    Hit,
    Miss,
}

/// The outcome of judging one key press; derived, not persisted.
#[derive(Clone, Copy, Debug, PartialEq, Eq, Structural)]
pub struct JudgeResult {
    pub pressed_at: u64,
    pub nearest_beat_time: u64,
    pub delta: u64,
    pub verdict: Verdict,
}

/// The distance between two time points.
pub open spec fn abs_diff(a: int, b: int) -> int {
    if a >= b {
        a - b
    } else {
        b - a
    }
}

/// The index of the grid point nearest to `t` on the grid with spacing
/// `s`: `t / s`, rounded to nearest, half-way cases away from zero
/// (upward, since `t >= 0`).
pub open spec fn nearest_beat_index(t: int, s: int) -> int
    recommends
        s >= 1,
        t >= 0,
{
    if 2 * (t % s) >= s {
        t / s + 1
    } else {
        t / s
    }
}

/// The nominal time of the grid point nearest to `t`.
pub open spec fn nearest_beat_time(t: int, s: int) -> int
    recommends
        s >= 1,
        t >= 0,
{
    nearest_beat_index(t, s) * s
}

/// How far the press at `t` landed from its nearest beat.
pub open spec fn judge_delta(t: int, s: int) -> int
    recommends
        s >= 1,
        t >= 0,
{
    abs_diff(t, nearest_beat_time(t, s))
}

/// Hit when the press is within the margin of its nearest beat.
pub open spec fn judge_verdict(t: int, s: int, m: int) -> Verdict
    recommends
        s >= 1,
        t >= 0,
{
    if judge_delta(t, s) <= m {
        Verdict::Hit
    } else {
        Verdict::Miss
    }
}

/// Judge a key press at `pressed_at` against the beat grid with spacing
/// `units_per_beat`, within `margin`. Total over its inputs; the one
/// precondition beyond a positive spacing keeps the nearest beat's
/// nominal time representable.
pub fn judge(pressed_at: u64, units_per_beat: u64, margin: u64) -> (r: JudgeResult)
    requires
        units_per_beat >= 1,
        pressed_at + units_per_beat <= u64::MAX,
    ensures
        r.pressed_at == pressed_at,
        r.nearest_beat_time == nearest_beat_time(pressed_at as int, units_per_beat as int),
        r.delta == judge_delta(pressed_at as int, units_per_beat as int),
        r.verdict == judge_verdict(pressed_at as int, units_per_beat as int, margin as int),
{
    let s: u64 = units_per_beat;
    let q: u64 = pressed_at / s;
    let rem: u64 = pressed_at % s;
    proof {
        lemma_fundamental_div_mod(pressed_at as int, s as int);
        assert(pressed_at as int == s as int * (pressed_at as int / s as int) + pressed_at as int
            % s as int);
        assert(q as int == pressed_at as int / s as int);
        assert(rem as int == pressed_at as int % s as int);
        assert(q as int * s as int == pressed_at - rem);
        lemma_mul_inequality(q as int, q as int + 1, s as int);
        assert((q as int + 1) * (s as int) == q as int * s as int + s as int) by (nonlinear_arith);
    }
    let k: u64 = if rem >= s - rem {
        q + 1
    } else {
        q
    };
    let nearest: u64 = k * s;
    let delta: u64 = if pressed_at >= nearest {
        pressed_at - nearest
    } else {
        nearest - pressed_at
    };
    let verdict: Verdict = if delta <= margin {
        Verdict::Hit
    } else {
        Verdict::Miss
    };
    JudgeResult { pressed_at, nearest_beat_time: nearest, delta, verdict }
}

/// The judged beat really is a nearest one: no grid point lies strictly
/// closer to the press than `nearest_beat_time(t, s)` does.
pub proof fn lemma_nearest_beat_minimal(t: int, s: int, k: int)
    requires
        s >= 1,
        t >= 0,
    ensures
        judge_delta(t, s) <= abs_diff(t, k * s),
{
    let q = t / s;
    let r = t % s;
    lemma_fundamental_div_mod(t, s);
    assert(q * s == t - r);
    assert((q + 1) * s == q * s + s) by (nonlinear_arith);
    if k <= q {
        lemma_mul_inequality(k, q, s);
        assert(t - k * s >= r);
    } else {
        lemma_mul_inequality(q + 1, k, s);
        assert(k * s - t >= s - r);
    }
}

} // verus!
