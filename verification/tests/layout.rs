//! Watching offsets and choosing one.
use xbox_controller_macos_gip::layout::{
    LayoutDetector, LayoutStats, LAYOUT_DETECT_WINDOW_NS, LAYOUT_MIN_SAMPLES, QUARTER_BITS,
};

fn block(buttons: u16, lt: u16, rt: u16, axes: [i16; 4]) -> Vec<u8> {
    let mut p = vec![];
    for w in [buttons, lt, rt] {
        p.extend_from_slice(&w.to_le_bytes());
    }
    for a in axes {
        p.extend_from_slice(&a.to_le_bytes());
    }
    p
}

fn seen(buttons: u16, lt: u16, rt: u16, axes: [i16; 4]) -> LayoutStats {
    let mut s = LayoutStats::new();
    s.observe(&block(buttons, lt, rt, axes), 0);
    s
}

/// The score in machine arithmetic.
fn machine_score(s: &LayoutStats) -> i32 {
    if s.samples == 0 {
        return i32::MIN / 2;
    }
    let n = s.samples as f32;
    let mut score = 0.0f32;
    score += 6.0 * (s.trig_hi_zero as f32 / n);
    score += 2.0 * (s.trig_activity as f32 / n);
    score += 3.0 * (s.axes_non_extreme as f32 / n);
    score += 3.0 * (s.axes_activity as f32 / n);
    score += if (s.buttons_change_count as f32 / n) < 0.25 { 2.0 } else { -4.0 };
    score += if (s.buttons_popcount_sum as f32 / n) < 4.0 { 2.0 } else { -3.0 };
    (score * 100.0) as i32
}

fn stats(c: [u32; 7]) -> LayoutStats {
    LayoutStats {
        samples: c[0],
        trig_hi_zero: c[1],
        trig_activity: c[2],
        axes_non_extreme: c[3],
        axes_activity: c[4],
        buttons_change_count: c[5],
        buttons_popcount_sum: c[6],
        last_buttons: None,
    }
}

#[test]
fn layout_constants() {
    assert_eq!(QUARTER_BITS, 0.25f32.to_bits());
    assert_eq!(LAYOUT_DETECT_WINDOW_NS, std::time::Duration::from_secs(2).as_nanos());
    assert_eq!(LAYOUT_MIN_SAMPLES, 120);
}

#[test]
fn counts_a_quiet_sample() {
    let mut want = stats([1, 1, 0, 1, 0, 0, 0]);
    want.last_buttons = Some(0);
    assert_eq!(seen(0, 4, 4, [512, -512, 0, 0]), want);
}

#[test]
fn counts_triggers() {
    let s = seen(0, 5, 0, [0; 4]);
    assert_eq!((s.trig_hi_zero, s.trig_activity), (1, 1));
    let s = seen(0, 0x0400, 0, [0; 4]);
    assert_eq!((s.trig_hi_zero, s.trig_activity), (0, 0));
    let s = seen(0, 0, 0xFFFF, [0; 4]);
    assert_eq!((s.trig_hi_zero, s.trig_activity), (0, 1));
    let s = seen(0, 1023, 1023, [0; 4]);
    assert_eq!((s.trig_hi_zero, s.trig_activity), (1, 1));
}

#[test]
fn counts_axes() {
    for (axis, calm, active) in [
        (513i16, 1u32, 1u32),
        (-513, 1, 1),
        (512, 1, 0),
        (-512, 1, 0),
        (i16::MAX, 0, 1),
        (i16::MIN + 1, 1, 1),
        (i16::MIN, 0, 1),
    ] {
        for at in 0..4 {
            let mut axes = [0i16; 4];
            axes[at] = axis;
            let s = seen(0, 0, 0, axes);
            assert_eq!((s.axes_non_extreme, s.axes_activity), (calm, active), "{axis} at {at}");
        }
    }
}

#[test]
fn a_full_deflection_is_activity() {
    let mut want = stats([1, 1, 0, 0, 1, 0, 0]);
    want.last_buttons = Some(0);
    assert_eq!(seen(0, 0, 0, [i16::MIN, 0, 0, 0]), want);
}

#[test]
fn only_the_block_counts() {
    let b = block(0x0810, 7, 1023, [i16::MIN, 600, -3, 0]);
    let mut alone = LayoutStats::new();
    alone.observe(&b, 0);
    for (before, after) in [(0usize, 3usize), (1, 0), (6, 20), (13, 1)] {
        let mut p = vec![0xA5; before];
        p.extend_from_slice(&b);
        p.extend_from_slice(&vec![0x5A; after]);
        let mut around = LayoutStats::new();
        around.observe(&p, before);
        assert_eq!(around, alone);
    }
}

#[test]
fn counters_stay_consistent() {
    let mut s = LayoutStats::new();
    assert_eq!(s.last_buttons, None);
    for i in 1..200u32 {
        s.observe(&block((i % 2) as u16 * 0xFFFF, 1023, 0, [600; 4]), 0);
        assert_eq!(s.samples, i);
        assert_eq!(s.buttons_change_count, i - 1);
        assert!(s.last_buttons.is_some());
        assert!(s.buttons_popcount_sum <= 16 * i);
    }
}

#[test]
fn counts_buttons() {
    let mut s = LayoutStats::new();
    for (b, changes, sum) in [(0u16, 0u32, 0u32), (0, 0, 0), (3, 1, 2), (3, 1, 4), (0xFFFF, 2, 20), (0x8000, 3, 21)] {
        s.observe(&block(b, 0, 0, [0; 4]), 0);
        assert_eq!((s.buttons_change_count, s.buttons_popcount_sum), (changes, sum));
        assert_eq!(s.last_buttons, Some(b));
    }
    assert_eq!(s.samples, 6);
}

#[test]
fn short_payloads_are_not_counted() {
    let mut s = LayoutStats::new();
    let p = block(1, 2, 3, [4; 4]);
    s.observe(&p, 1);
    s.observe(&p[..13], 0);
    s.observe(&[], 0);
    assert_eq!(s, LayoutStats::new());
}

#[test]
fn scores_are_exact() {
    assert_eq!(LayoutStats::new().score(), i32::MIN / 2);
    assert_eq!(stats([4, 4, 2, 4, 1, 0, 4]).score(), 1475);
    assert_eq!(stats([4, 4, 2, 4, 1, 1, 4]).score(), 875);
    assert_eq!(stats([4, 4, 2, 4, 1, 0, 16]).score(), 975);
    assert_eq!(stats([1, 0, 0, 0, 0, 1, 16]).score(), -700);
    assert_eq!(stats([1, 1, 1, 1, 1, 0, 0]).score(), 1800);
}

#[test]
fn scores_match_the_machine() {
    let mut x = 0x9E37_79B9_7F4A_7C15u64;
    let mut next = || {
        x ^= x << 13;
        x ^= x >> 7;
        x ^= x << 17;
        (x >> 24) as u32
    };
    for round in 0..3000 {
        let n = match round % 4 {
            0 => 120 + next() % 400,
            1 => 1 + next() % 20,
            2 => 0xFFFF_FF00 | next(),
            _ => 1 | next(),
        };
        let mut c = [n, 0, 0, 0, 0, 0, 0];
        for v in c.iter_mut().skip(1) {
            *v = if round % 8 == 7 { next() } else { (next() as u64 % (n as u64 + 1)) as u32 };
        }
        let s = stats(c);
        assert_eq!(s.score(), machine_score(&s), "{s:?}");
        if c.iter().all(|&v| v <= n) {
            assert!((-700..=1800).contains(&s.score()));
        }
    }
}

#[test]
fn score_rises_with_controls() {
    for n in [1u32, 7, 120, 1000] {
        for field in 1..=4usize {
            let mut last = i32::MIN;
            for step in 0..=n {
                let mut c = [n, n / 2, n / 3, n / 2, n / 5, n / 9, n];
                c[field] = step;
                let score = stats(c).score();
                assert!(score >= last);
                last = score;
            }
        }
    }
}

#[test]
fn score_rises_beyond_the_samples() {
    for field in 1..=4usize {
        let mut last = i32::MIN;
        for step in 0..64u32 {
            let mut c = [3, 1, 1, 1, 1, 0, 0];
            c[field] = (u32::MAX >> 6) * step;
            let score = stats(c).score();
            assert_eq!(score, machine_score(&stats(c)));
            assert!(score >= last);
            last = score;
        }
    }
}

#[test]
fn score_falls_with_buttons() {
    for n in [1u32, 3, 4, 120, 121, 0x3F_FFFF, 0x40_0000] {
        for controls in [0, n / 3, n] {
            let score = |changes: u32, held: u32| stats([n, controls, controls, controls, controls, changes, held]).score();
            let few = (n - 1) / 4;
            let many = (n + 3) / 4;
            let best = score(few, 4 * n - 1);
            assert_eq!(score(0, 0), best);
            assert!(score(many, 4 * n - 1) < best);
            assert!(score(few, 4 * n) < best);
            assert_eq!(score(n, 0), score(many, 4 * n - 1));
            assert_eq!(score(0, 16 * n), score(few, 4 * n));
            assert!(score(many, 4 * n) < score(many, 0));
            assert!(score(many, 4 * n) < score(few, 4 * n));
        }
    }
    let n = 0x40_0001;
    assert_eq!(stats([n, 0, 0, 0, 0, 0, 4 * n - 1]).score(), stats([n, 0, 0, 0, 0, 0, 4 * n]).score());
}

#[test]
fn doubling_leaves_the_score() {
    for c in [[1u32, 1, 0, 1, 0, 0, 3], [120, 77, 13, 119, 5, 29, 480], [0x7FFF_FFFF, 0x7654_3211, 3, 0x1234_5677, 0, 0x1FFF_FFFF, 0x7FFF_FFFF]] {
        assert_eq!(stats(c.map(|v| 2 * v)).score(), stats(c).score());
    }
}

#[test]
fn watches_even_offsets() {
    let mut d = LayoutDetector::new();
    assert_eq!(d.best_offset(), None);
    assert_eq!(d.samples(), 0);
    assert_eq!(d.stats(0), None);
    d.observe(&[1, 2, 3]);
    assert_eq!(d.stats(0), Some(LayoutStats::new()));
    assert_eq!(d.stats(1), None);
    d.observe(&[0; 19]);
    for i in 0..6usize {
        let samples = d.stats(i).unwrap().samples;
        assert_eq!(samples, if i % 2 == 0 { 1 } else { 0 });
    }
    assert_eq!(d.stats(6), None);
    d.observe(&[0; 14]);
    assert_eq!(d.stats(0).unwrap().samples, 2);
    assert_eq!(d.stats(2).unwrap().samples, 1);
    assert_eq!(d.samples(), 2);
}

#[test]
fn last_of_equal_scores_wins() {
    let mut d = LayoutDetector::new();
    d.observe(&[0; 20]);
    assert_eq!(d.best_offset(), Some(6));
    d.observe(&block(0, 0, 0, [600; 4]));
    assert_eq!(d.best_offset(), Some(0));
}

#[test]
fn decides_after_window_and_samples() {
    let mut d = LayoutDetector::new();
    for _ in 0..119 {
        d.observe(&[0; 14]);
    }
    assert_eq!(d.decide(u128::MAX), None);
    d.observe(&[0; 14]);
    assert_eq!(d.decide(LAYOUT_DETECT_WINDOW_NS - 1), None);
    assert_eq!(d.decide(LAYOUT_DETECT_WINDOW_NS), Some(0));
}

#[test]
fn finds_block_behind_extra_bytes() {
    let mut d = LayoutDetector::new();
    for i in 0..150i16 {
        let mut p = vec![0xFF, 0xFF, 0xFF, 0xFF];
        p.extend_from_slice(&block(0, 0, 0, [1000 + i, -1000 - i, 40, -40]));
        assert!(d.has_room_for(&p));
        d.observe(&p);
    }
    assert_eq!(d.decide(LAYOUT_DETECT_WINDOW_NS), Some(4));
    let best = d.stats(4).unwrap();
    assert_eq!(best.samples, 150);
    assert_eq!(best.score(), 1600);
}
