use quartz::nodes::{spectrum_bin, Event, FftCursor, KrClock, ResetClock, SampleDelay, Sequencer, ShiftRegister};

#[test]
fn sequencer_trigger_replaces_earlier_schedule() {
    let mut s = Sequencer::new();
    s.trigger(0, 2, 3);
    s.trigger(1, 0, 1);
    s.trigger(0, 5, 5);
    assert_eq!(
        s.events,
        vec![Event { index: 1, delay: 0, duration: 1 }, Event { index: 0, delay: 5, duration: 5 }]
    );
}

#[test]
fn sequencer_plays_after_delay_for_duration() {
    let mut s = Sequencer::new();
    s.trigger(3, 2, 2);
    let mut played = Vec::new();
    for _ in 0..6 {
        played.push(s.step());
    }
    assert_eq!(played, vec![vec![], vec![], vec![3], vec![3], vec![], vec![]]);
    assert!(s.events.is_empty());
}

#[test]
fn sequencer_plays_several_nets_in_event_order() {
    let mut s = Sequencer::new();
    s.trigger(2, 0, 1);
    s.trigger(1, 0, 2);
    assert_eq!(s.step(), vec![2, 1]);
    assert_eq!(s.step(), vec![1]);
    assert_eq!(s.step(), Vec::<usize>::new());
}

#[test]
fn sequencer_zero_duration_never_plays() {
    let mut s = Sequencer::new();
    s.trigger(0, 0, 0);
    assert_eq!(s.step(), Vec::<usize>::new());
    assert!(s.events.is_empty());
}

#[test]
fn kr_clock_ticks_every_n_samples() {
    let mut c = KrClock::new(3);
    let fired: Vec<bool> = (0..7).map(|_| c.tick()).collect();
    assert_eq!(fired, vec![true, false, false, true, false, false, true]);
}

#[test]
fn kr_clock_period_one_ticks_every_sample() {
    let mut c = KrClock::new(1);
    assert!(c.tick());
    assert!(c.tick());
    assert_eq!(c.count, 0);
}

#[test]
fn kr_clock_reset_ticks_next_sample() {
    let mut c = KrClock::new(4);
    c.tick();
    c.tick();
    c.reset();
    assert!(c.tick());
    assert_eq!(c.count, 3);
}

#[test]
fn reset_clock_resets_every_n_samples() {
    let mut c = ResetClock::new();
    let resets: Vec<bool> = (0..7).map(|_| c.tick(2)).collect();
    assert_eq!(resets, vec![false, false, true, false, true, false, true]);
}

#[test]
fn reset_clock_zero_period_resets_every_sample() {
    let mut c = ResetClock::new();
    assert!(c.tick(0));
    assert!(c.tick(0));
    assert_eq!(c.count, 1);
}

#[test]
fn reset_clock_shorter_period_resets_at_once() {
    let mut c = ResetClock::new();
    for _ in 0..5 {
        c.tick(10);
    }
    assert_eq!(c.count, 5);
    assert!(c.tick(3));
    assert_eq!(c.count, 1);
}

#[test]
fn fft_cursor_wraps_and_transforms_at_zero() {
    let mut c = FftCursor::new(4, 2);
    let slots: Vec<(usize, bool)> = (0..6).map(|_| c.tick()).collect();
    assert_eq!(
        slots,
        vec![(2, false), (3, false), (0, true), (1, false), (2, false), (3, false)]
    );
    c.reset();
    assert_eq!(c.count, 2);
}

#[test]
fn spectrum_bin_mirrors_past_the_middle() {
    assert_eq!(spectrum_bin(8, 0), (0, false));
    assert_eq!(spectrum_bin(8, 4), (4, false));
    assert_eq!(spectrum_bin(8, 5), (3, true));
    assert_eq!(spectrum_bin(8, 7), (1, true));
    assert_eq!(spectrum_bin(5, 3), (2, true));
}

#[test]
fn shift_register_shifts_on_trigger() {
    let mut r = ShiftRegister::new(0i32);
    r.shift(1);
    r.shift(2);
    r.shift(3);
    assert_eq!(r.stages, vec![3, 2, 1, 0, 0, 0, 0, 0]);
    for x in 4..13 {
        r.shift(x);
    }
    assert_eq!(r.stages, vec![12, 11, 10, 9, 8, 7, 6, 5]);
    r.clear(0);
    assert_eq!(r.stages, vec![0; 8]);
}

#[test]
fn sample_delay_reads_past_samples() {
    let mut d = SampleDelay::new(4, 0i32);
    assert_eq!(d.tick(10, 0), Some(10));
    assert_eq!(d.tick(20, 1), Some(10));
    assert_eq!(d.tick(30, 2), Some(10));
    assert_eq!(d.tick(40, 3), Some(10));
    assert_eq!(d.tick(50, 3), Some(20));
    assert_eq!(d.tick(60, 4), None);
    assert_eq!(d.buffer.len(), 4);
    d.clear(0);
    assert_eq!(d.buffer.iter().copied().collect::<Vec<i32>>(), vec![0, 0, 0, 0]);
}

#[test]
fn sample_delay_of_length_zero_reads_nothing() {
    let mut d = SampleDelay::new(0, 0i32);
    assert_eq!(d.tick(1, 0), None);
    assert_eq!(d.buffer.len(), 0);
}

#[test]
fn triggered_net_plays_from_delay_for_duration() {
    let mut s = Sequencer::new();
    s.trigger(1, 0, 4);
    s.trigger(5, 2, 3);
    let mut at = Vec::new();
    for k in 0..8 {
        if s.step().contains(&5) {
            at.push(k);
        }
    }
    assert_eq!(at, vec![2, 3, 4]);
}

#[test]
fn sequencer_tick_schedules_one_event_per_net() {
    let mut s = Sequencer::new();
    assert_eq!(s.tick(Some((2, 3, 5))), Vec::<usize>::new());
    assert_eq!(s.events, vec![Event { index: 2, delay: 2, duration: 5 }]);
    assert_eq!(s.tick(Some((1, 0, 2))), vec![1]);
    assert_eq!(
        s.events,
        vec![Event { index: 2, delay: 1, duration: 5 }, Event { index: 1, delay: 0, duration: 1 }]
    );
    // a new trigger of net 2 replaces its schedule
    assert_eq!(s.tick(Some((2, 0, 4))), vec![1, 2]);
    assert_eq!(
        s.events,
        vec![Event { index: 1, delay: 0, duration: 0 }, Event { index: 2, delay: 0, duration: 3 }]
    );
    assert_eq!(s.tick(None), vec![2]);
    assert_eq!(s.events, vec![Event { index: 2, delay: 0, duration: 2 }]);
}
