use tenpo::clock::BeatClock;
use tenpo::judge::judge;
use tenpo::judge::Verdict;

/// The library counts time in integer units; these tests use milliseconds,
/// so a seconds value from a float clock converts exactly.
fn ms(seconds: f32) -> u64 {
    (seconds * 1000.0).round() as u64
}

#[test]
fn judge_on_the_beat() {
    let r = judge(ms(3.0), ms(1.0), ms(0.05));
    assert_eq!(r.nearest_beat_time, ms(3.0));
    assert_eq!(r.delta, 0);
    assert_eq!(r.verdict, Verdict::Hit);
}

#[test]
fn judge_slightly_early() {
    let r = judge(ms(2.98), ms(1.0), ms(0.05));
    assert_eq!(r.nearest_beat_time, ms(3.0));
    assert_eq!(r.delta, ms(0.02));
    assert_eq!(r.verdict, Verdict::Hit);
}

#[test]
fn judge_well_off_the_beat() {
    let r = judge(ms(3.40), ms(1.0), ms(0.05));
    assert_eq!(r.nearest_beat_time, ms(3.0));
    assert_eq!(r.delta, ms(0.40));
    assert_eq!(r.verdict, Verdict::Miss);
}

#[test]
fn judge_just_after_start_hits_beat_zero() {
    // The judge rounds to beat 0 even though the clock never plays it.
    let r = judge(ms(0.03), ms(1.0), ms(0.05));
    assert_eq!(r.nearest_beat_time, 0);
    assert_eq!(r.delta, ms(0.03));
    assert_eq!(r.verdict, Verdict::Hit);
}

#[test]
fn judge_at_time_zero() {
    let r = judge(0, ms(1.0), ms(0.05));
    assert_eq!(r.nearest_beat_time, 0);
    assert_eq!(r.delta, 0);
    assert_eq!(r.verdict, Verdict::Hit);
}

#[test]
fn judge_half_way_rounds_away_from_zero() {
    // Exactly between beats 1 and 2: rounding half away from zero picks 2.
    let r = judge(ms(1.5), ms(1.0), ms(0.4));
    assert_eq!(r.nearest_beat_time, ms(2.0));
    assert_eq!(r.delta, ms(0.5));
    assert_eq!(r.verdict, Verdict::Miss);
}

#[test]
fn judge_reports_the_press_time() {
    let r = judge(ms(7.77), ms(0.5), ms(0.05));
    assert_eq!(r.pressed_at, ms(7.77));
    assert_eq!(r.nearest_beat_time, ms(8.0));
    assert_eq!(r.delta, ms(0.23));
    assert_eq!(r.verdict, Verdict::Miss);
}

#[test]
fn judge_with_zero_margin() {
    let on = judge(ms(4.0), ms(2.0), 0);
    assert_eq!(on.verdict, Verdict::Hit);
    let off = judge(ms(4.0) + 1, ms(2.0), 0);
    assert_eq!(off.delta, 1);
    assert_eq!(off.verdict, Verdict::Miss);
}

#[test]
fn fresh_clock_starts_at_index_one() {
    let c = BeatClock::new(ms(1.0));
    assert_eq!(c.units_per_beat, ms(1.0));
    assert_eq!(c.next_beat_index, 1);
}

#[test]
fn try_new_rejects_a_zero_spacing() {
    assert!(BeatClock::try_new(0).is_none());
    let c = BeatClock::try_new(ms(1.0)).unwrap();
    assert_eq!(c.next_beat_index, 1);
}

#[test]
fn no_beat_before_the_first_spacing() {
    // A fresh clock owes nothing at time 0 and nothing just before the
    // first beat; at exactly the beat time the beat is due.
    let mut c = BeatClock::new(ms(1.0));
    assert!(c.tick(0).is_empty());
    assert!(c.tick(ms(0.999)).is_empty());
    let evs = c.tick(ms(1.0));
    assert_eq!(evs.len(), 1);
    assert_eq!(evs[0].index, 1);
    assert_eq!(evs[0].time, ms(1.0));
}

#[test]
fn single_catch_up_equals_sequential_ticks() {
    // At rest since time 0, one late tick at 5.0 s yields the same five
    // events as ticking at 1.0, 2.0, ..., 5.0 s in turn.
    let mut late = BeatClock::new(ms(1.0));
    let late_events = late.tick(ms(5.0));

    let mut steady = BeatClock::new(ms(1.0));
    let mut steady_events = Vec::new();
    for step in 1..6u64 {
        steady_events.extend(steady.tick(step * ms(1.0)));
    }

    assert_eq!(late_events.len(), 5);
    assert_eq!(late_events, steady_events);
    assert_eq!(late, steady);
    for (i, ev) in late_events.iter().enumerate() {
        assert_eq!(ev.index, i as u64 + 1);
        assert_eq!(ev.time, (i as u64 + 1) * ms(1.0));
    }
}

#[test]
fn total_beats_match_the_final_time() {
    // An irregular, non-decreasing schedule: the total emitted is
    // floor(t_final / s), in strictly increasing index order.
    let mut c = BeatClock::new(ms(1.0));
    let mut all = Vec::new();
    for t in [ms(0.4), ms(2.7), ms(2.7), ms(6.2), ms(6.9)] {
        all.extend(c.tick(t));
    }
    assert_eq!(all.len(), 6);
    for (i, ev) in all.iter().enumerate() {
        assert_eq!(ev.index, i as u64 + 1);
        assert_eq!(ev.time, (i as u64 + 1) * ms(1.0));
    }
    assert_eq!(c.next_beat_index, 7);
}

#[test]
fn tick_twice_at_the_same_time_adds_nothing() {
    let mut c = BeatClock::new(ms(1.0));
    assert_eq!(c.tick(ms(5.0)).len(), 5);
    assert!(c.tick(ms(5.0)).is_empty());
    assert_eq!(c.next_beat_index, 6);
}

#[test]
fn catch_up_spans_many_beats_at_once() {
    let mut c = BeatClock::new(ms(0.25));
    let evs = c.tick(ms(2.0));
    assert_eq!(evs.len(), 8);
    assert_eq!(evs[7].index, 8);
    assert_eq!(evs[7].time, ms(2.0));
}
