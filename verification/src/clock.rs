//! The beat clock: a virtual beat timeline anchored to a monotonic
//! elapsed-time clock. Beat `i` is due at time `i * units_per_beat`;
//! `tick(now)` emits every beat that is due and not yet emitted.

use vstd::prelude::*;
use vstd::arithmetic::div_mod::lemma_fundamental_div_mod;
use vstd::arithmetic::div_mod::lemma_div_nonincreasing;
use vstd::arithmetic::div_mod::lemma_div_is_ordered;
use vstd::arithmetic::div_mod::lemma_div_pos_is_pos;
use vstd::arithmetic::mul::lemma_mul_inequality;

verus! {

/// One emitted beat: beat `index` with its nominal time
/// `index * units_per_beat`.
#[derive(Clone, Copy, Debug, PartialEq, Eq, Structural)]
pub struct BeatEvent {
    pub index: u64,
    pub time: u64,
}

/// The clock's whole state: the beat spacing and the index of the next
/// beat to emit. A fresh clock starts at index 1, so its first beat is
/// due at `units_per_beat`, not at 0.
#[derive(Clone, Copy, Debug, PartialEq, Eq, Structural)]
pub struct BeatClock {
    /// Time units per beat; positive.
    pub units_per_beat: u64,
    /// Index of the next beat to emit; at least 1, never decreases.
    pub next_beat_index: u64,
}

/// The index the clock holds after one `tick` at time `t`: every index
/// whose nominal time `index * s` is at most `t` has been emitted, so the
/// next one is `t / s + 1` — unless the clock was already past it.
pub open spec fn index_after_tick(n: int, t: int, s: int) -> int
    recommends
        s >= 1,
{
    if n > t / s + 1 {
        n
    } else {
        t / s + 1
    }
}

/// The events one `tick` at time `t` emits from index `n` on, as
/// (index, nominal time) pairs: consecutive indices from `n` up to but
/// not including `index_after_tick(n, t, s)`.
pub open spec fn tick_events(n: int, t: int, s: int) -> Seq<(int, int)>
    recommends
        s >= 1,
{
    Seq::new((index_after_tick(n, t, s) - n) as nat, |i: int| (n + i, (n + i) * s))
}

impl BeatClock {
    /// A clock is well formed when its beat spacing is positive and its
    /// next index is at least 1.
    pub open spec fn wf(self) -> bool {
        self.units_per_beat >= 1 && self.next_beat_index >= 1
    }

    /// A fresh clock: first beat due at `units_per_beat`.
    pub fn new(units_per_beat: u64) -> (clock: BeatClock)
        requires
            units_per_beat >= 1,
        ensures
            clock.wf(),
            clock.units_per_beat == units_per_beat,
            clock.next_beat_index == 1,
    {
        BeatClock { units_per_beat, next_beat_index: 1 }
    }

    /// `new`, with the positivity of the beat spacing checked at run time.
    pub fn try_new(units_per_beat: u64) -> (clock: Option<BeatClock>)
        ensures
            clock is Some <==> units_per_beat >= 1,
            clock is Some ==> clock->Some_0 == (BeatClock { units_per_beat, next_beat_index: 1 }),
    {
        if units_per_beat >= 1 {
            Some(BeatClock { units_per_beat, next_beat_index: 1 })
        } else {
            None
        }
    }

    /// Advance the clock to time `now` and emit every beat that is due:
    /// one event for each index from the old `next_beat_index` up to the
    /// last index whose nominal time is at most `now`, in increasing
    /// order. If the caller was delayed, all missed beats are emitted,
    /// none dropped, none coalesced.
    pub fn tick(&mut self, now: u64) -> (events: Vec<BeatEvent>)
        requires
            old(self).wf(),
            now < u64::MAX,
        ensures
            final(self).wf(),
            final(self).units_per_beat == old(self).units_per_beat,
            final(self).next_beat_index == index_after_tick(
                old(self).next_beat_index as int,
                now as int,
                old(self).units_per_beat as int,
            ),
            events@.len() == index_after_tick(
                old(self).next_beat_index as int,
                now as int,
                old(self).units_per_beat as int,
            ) - old(self).next_beat_index,
            events@.map_values(|e: BeatEvent| (e.index as int, e.time as int)) == tick_events(
                old(self).next_beat_index as int,
                now as int,
                old(self).units_per_beat as int,
            ),
            forall|i: int|
                0 <= i < events@.len() ==> (#[trigger] events@[i]).index == old(
                    self,
                ).next_beat_index + i && events@[i].time == events@[i].index * old(
                    self,
                ).units_per_beat,
    {
        let s: u64 = self.units_per_beat;
        let last_due: u64 = now / s;
        proof {
            lemma_div_nonincreasing(now as int, s as int);
        }
        let mut events: Vec<BeatEvent> = Vec::new();
        while self.next_beat_index <= last_due
            invariant
                self.units_per_beat == old(self).units_per_beat,
                s == old(self).units_per_beat,
                s >= 1,
                now < u64::MAX,
                last_due == now as int / s as int,
                last_due <= now,
                1 <= old(self).next_beat_index,
                old(self).next_beat_index <= self.next_beat_index,
                self.next_beat_index as int <= index_after_tick(
                    old(self).next_beat_index as int,
                    now as int,
                    s as int,
                ),
                events@.len() == self.next_beat_index - old(self).next_beat_index,
                forall|i: int|
                    0 <= i < events@.len() ==> (#[trigger] events@[i]).index == old(
                        self,
                    ).next_beat_index + i && events@[i].time == events@[i].index * s,
            decreases last_due + 1 - self.next_beat_index,
        {
            let idx: u64 = self.next_beat_index;
            proof {
                lemma_mul_inequality(idx as int, last_due as int, s as int);
                lemma_fundamental_div_mod(now as int, s as int);
                assert(last_due as int * s as int <= now);
            }
            let time: u64 = idx * s;
            events.push(BeatEvent { index: idx, time });
            self.next_beat_index = idx + 1;
        }
        proof {
            let n0 = old(self).next_beat_index as int;
            let expected = tick_events(n0, now as int, s as int);
            let got = events@.map_values(|e: BeatEvent| (e.index as int, e.time as int));
            assert(self.next_beat_index as int == index_after_tick(n0, now as int, s as int));
            assert forall|i: int| 0 <= i < got.len() implies got[i] == expected[i] by {
                assert(events@[i].index == n0 + i);
                assert(events@[i].time == (n0 + i) * s);
            }
            assert(got =~= expected);
        }
        events
    }
}

/// Every listed tick time is a valid elapsed time.
pub open spec fn ticks_non_negative(ts: Seq<int>) -> bool {
    forall|i: int| 0 <= i < ts.len() ==> ts[i] >= 0
}

/// The elapsed-time clock is monotonic: later ticks see no earlier time.
pub open spec fn ticks_non_decreasing(ts: Seq<int>) -> bool {
    forall|i: int, j: int| 0 <= i <= j < ts.len() ==> ts[i] <= ts[j]
}

/// The index the clock holds after ticking once at each time in `ts`,
/// in order, starting from index `n`.
pub open spec fn index_after_ticks(n: int, ts: Seq<int>, s: int) -> int
    recommends
        s >= 1,
    decreases ts.len(),
{
    if ts.len() == 0 {
        n
    } else {
        index_after_ticks(index_after_tick(n, ts[0], s), ts.drop_first(), s)
    }
}

/// All events emitted by ticking once at each time in `ts`, in order,
/// starting from index `n`.
pub open spec fn events_of_ticks(n: int, ts: Seq<int>, s: int) -> Seq<(int, int)>
    recommends
        s >= 1,
    decreases ts.len(),
{
    if ts.len() == 0 {
        Seq::empty()
    } else {
        tick_events(n, ts[0], s) + events_of_ticks(index_after_tick(n, ts[0], s), ts.drop_first(), s)
    }
}

/// Two consecutive ticks at non-decreasing times emit, together, exactly
/// what one tick at the later time emits.
proof fn lemma_merge_two_ticks(n: int, t0: int, t1: int, s: int)
    requires
        s >= 1,
        0 <= t0 <= t1,
    ensures
        index_after_tick(index_after_tick(n, t0, s), t1, s) == index_after_tick(n, t1, s),
        tick_events(n, t0, s) + tick_events(index_after_tick(n, t0, s), t1, s) == tick_events(
            n,
            t1,
            s,
        ),
{
    lemma_div_is_ordered(t0, t1, s);
    let m0 = index_after_tick(n, t0, s);
    let a = tick_events(n, t0, s) + tick_events(m0, t1, s);
    let b = tick_events(n, t1, s);
    assert forall|i: int| 0 <= i < a.len() implies a[i] == b[i] by {
        if i >= m0 - n {
            assert(a[i] == tick_events(m0, t1, s)[i - (m0 - n)]);
        }
    }
    assert(a =~= b);
}

/// Catch-up is idempotent: ticking once at each time of any non-empty,
/// non-decreasing schedule leaves the clock exactly where one tick at the
/// final time leaves it, and emits exactly the same events, in the same
/// order — delayed callers lose nothing.
pub proof fn lemma_catch_up_equivalence(n: int, ts: Seq<int>, s: int)
    requires
        s >= 1,
        ts.len() > 0,
        ticks_non_negative(ts),
        ticks_non_decreasing(ts),
    ensures
        index_after_ticks(n, ts, s) == index_after_tick(n, ts.last(), s),
        events_of_ticks(n, ts, s) == tick_events(n, ts.last(), s),
    decreases ts.len(),
{
    let rest = ts.drop_first();
    let m0 = index_after_tick(n, ts[0], s);
    if ts.len() == 1 {
        assert(index_after_ticks(m0, rest, s) == m0);
        assert(index_after_ticks(n, ts, s) == m0);
        assert(events_of_ticks(m0, rest, s) == Seq::<(int, int)>::empty());
        assert(events_of_ticks(n, ts, s) =~= tick_events(n, ts[0], s));
    } else {
        assert(ticks_non_negative(rest)) by {
            assert(forall|i: int| 0 <= i < rest.len() ==> rest[i] == ts[i + 1]);
        }
        assert(ticks_non_decreasing(rest)) by {
            assert(forall|i: int, j: int|
                0 <= i <= j < rest.len() ==> rest[i] == ts[i + 1] && rest[j] == ts[j + 1]);
        }
        lemma_catch_up_equivalence(m0, rest, s);
        assert(rest.last() == ts.last());
        assert(ts[0] <= ts.last());
        lemma_merge_two_ticks(n, ts[0], ts.last(), s);
        assert(index_after_ticks(n, ts, s) == index_after_ticks(m0, rest, s));
        assert(events_of_ticks(n, ts, s) == tick_events(n, ts[0], s) + events_of_ticks(
            m0,
            rest,
            s,
        ));
    }
}

/// Catch-up totality: from a fresh clock, any non-empty, non-decreasing
/// schedule of tick times ending at `t_final` emits exactly
/// `t_final / s` beats in total, the `i`-th of them (counting from 0)
/// carrying index `i + 1` and nominal time `(i + 1) * s` — so indices
/// are consecutive and strictly increasing, whatever the schedule.
pub proof fn lemma_beat_count(ts: Seq<int>, s: int)
    requires
        s >= 1,
        ts.len() > 0,
        ticks_non_negative(ts),
        ticks_non_decreasing(ts),
    ensures
        events_of_ticks(1, ts, s).len() == ts.last() / s,
        forall|i: int|
            0 <= i < events_of_ticks(1, ts, s).len() ==> events_of_ticks(1, ts, s)[i] == (
                i + 1,
                (i + 1) * s,
            ),
{
    lemma_catch_up_equivalence(1, ts, s);
    lemma_div_pos_is_pos(ts.last(), s);
}

} // verus!
