//! Finding where in the payload the input block stands.
//!
//! Some controllers put extra bytes before the block. Every even offset is watched
//! for a while, and the one that behaves most like an input block is taken.
use crate::binary32::Binary32;
use crate::packet::{RawInput, INPUT_LEN};
use crate::precision;
use crate::rounding;
use vstd::prelude::*;

verus! {

/// How long offsets are watched at least, in nanoseconds.
pub const LAYOUT_DETECT_WINDOW_NS: u128 = 2_000_000_000;

/// How many packets are watched at least.
pub const LAYOUT_MIN_SAMPLES: u32 = 120;

/// The bit pattern of a quarter.
pub const QUARTER_BITS: u32 = 0x3E80_0000;

/// The number of ones among the binary digits of `w`.
pub open spec fn ones(w: nat) -> nat
    decreases w,
{
    if w == 0 {
        0
    } else {
        w % 2 + ones(w / 2)
    }
}

pub(crate) proof fn lemma_ones_bound(w: nat, digits: nat)
    requires
        w < vstd::arithmetic::power2::pow2(digits),
    ensures
        ones(w) <= digits,
    decreases digits,
{
    vstd::arithmetic::power2::lemma2_to64();
    if w > 0 {
        if digits > 0 {
            vstd::arithmetic::power2::lemma_pow2_unfold(digits);
            lemma_ones_bound(w / 2, (digits - 1) as nat);
        }
    }
}

/// The number of ones among the binary digits of `w`.
fn count_ones(w: u16) -> (n: u32)
    ensures
        n == ones(w as nat),
        n <= 16,
{
    proof {
        vstd::arithmetic::power2::lemma2_to64();
        lemma_ones_bound(w as nat, 16);
    }
    let mut rest: u16 = w;
    let mut n: u32 = 0;
    while rest > 0
        invariant
            n + ones(rest as nat) == ones(w as nat),
            ones(w as nat) <= 16,
        decreases rest,
    {
        n = n + (rest % 2) as u32;
        rest = rest / 2;
    }
    n
}

impl RawInput {
    /// Triggers look like ten-bit values in sixteen-bit words.
    pub open spec fn triggers_fit(self) -> bool {
        self.lt < 1024 && self.rt < 1024
    }

    /// A trigger is pressed.
    pub open spec fn triggers_active(self) -> bool {
        self.lt % 1024 > 4 || self.rt % 1024 > 4
    }

    /// No axis is at either end of its range.
    pub open spec fn axes_inside(self) -> bool {
        inside(self.lx) && inside(self.ly) && inside(self.rx) && inside(self.ry)
    }

    /// An axis is moved noticeably.
    pub open spec fn axes_active(self) -> bool {
        active(self.lx) || active(self.ly) || active(self.rx) || active(self.ry)
    }
}

/// The axis is at neither end of its range.
pub open spec fn inside(v: i16) -> bool {
    v != i16::MIN && v != i16::MAX
}

/// The axis is away from the centre.
pub open spec fn active(v: i16) -> bool {
    v > 512 || v < -512
}

fn is_inside(v: i16) -> (r: bool)
    ensures
        r == inside(v),
{
    v != i16::MIN && v != i16::MAX
}

fn is_active(v: i16) -> (r: bool)
    ensures
        r == active(v),
{
    v > 512 || v < -512
}

/// What was seen at one offset.
#[derive(Clone, Copy, Debug, PartialEq, Eq, Structural)]
pub struct LayoutStats {
    pub samples: u32,
    /// Samples in which the triggers look like ten-bit values in sixteen-bit words.
    pub trig_hi_zero: u32,
    /// Samples in which a trigger is pressed.
    pub trig_activity: u32,
    /// Samples in which no axis is saturated.
    pub axes_non_extreme: u32,
    /// Samples in which an axis is moved.
    pub axes_activity: u32,
    /// How often the buttons differ from those of the sample before.
    pub buttons_change_count: u32,
    /// The sum of the numbers of buttons held.
    pub buttons_popcount_sum: u32,
    pub last_buttons: Option<u16>,
}

/// 1 where the condition holds, else 0.
pub open spec fn one_if(b: bool) -> int {
    if b {
        1
    } else {
        0
    }
}

/// `count` as a part of `total`.
pub open spec fn share(count: u32, total: Binary32) -> Binary32 {
    Binary32::of_int(count as int).over(total)
}

impl LayoutStats {
    /// Nothing seen yet.
    pub open spec fn fresh() -> LayoutStats {
        LayoutStats {
            samples: 0,
            trig_hi_zero: 0,
            trig_activity: 0,
            axes_non_extreme: 0,
            axes_activity: 0,
            buttons_change_count: 0,
            buttons_popcount_sum: 0,
            last_buttons: None,
        }
    }

    /// Whether the buttons differ from those of the sample before.
    pub open spec fn buttons_changed(self, raw: RawInput) -> bool {
        self.last_buttons is Some && self.last_buttons->0 != raw.buttons
    }

    /// Whether every counter has room for the sample.
    pub open spec fn has_room(self, raw: RawInput) -> bool {
        &&& self.samples + 1 <= u32::MAX
        &&& self.trig_hi_zero + one_if(raw.triggers_fit()) <= u32::MAX
        &&& self.trig_activity + one_if(raw.triggers_active()) <= u32::MAX
        &&& self.axes_non_extreme + one_if(raw.axes_inside()) <= u32::MAX
        &&& self.axes_activity + one_if(raw.axes_active()) <= u32::MAX
        &&& self.buttons_change_count + one_if(self.buttons_changed(raw)) <= u32::MAX
        &&& self.buttons_popcount_sum + ones(raw.buttons as nat) <= u32::MAX
    }

    /// Whether the counters have room for the block at `off` in the payload, if the
    /// payload holds a whole block there.
    pub open spec fn room_at(self, payload: Seq<u8>, off: int) -> bool {
        off + INPUT_LEN <= payload.len() ==> self.has_room(block_at(payload, off))
    }

    /// The counters with the block at `off` in the payload, if the payload holds a whole
    /// block there.
    pub open spec fn after_block(self, payload: Seq<u8>, off: int) -> LayoutStats {
        if off + INPUT_LEN <= payload.len() {
            self.after(block_at(payload, off))
        } else {
            self
        }
    }

    /// The counters with one sample more.
    pub open spec fn after(self, raw: RawInput) -> LayoutStats {
        LayoutStats {
            samples: (self.samples + 1) as u32,
            trig_hi_zero: (self.trig_hi_zero + one_if(raw.triggers_fit())) as u32,
            trig_activity: (self.trig_activity + one_if(raw.triggers_active())) as u32,
            axes_non_extreme: (self.axes_non_extreme + one_if(raw.axes_inside())) as u32,
            axes_activity: (self.axes_activity + one_if(raw.axes_active())) as u32,
            buttons_change_count: (self.buttons_change_count + one_if(
                self.buttons_changed(raw),
            )) as u32,
            buttons_popcount_sum: (self.buttons_popcount_sum + ones(raw.buttons as nat)) as u32,
            last_buttons: Some(raw.buttons),
        }
    }

    /// How triggers and axes rate: triggers that fit their ten bits count six, trigger
    /// activity two, unsaturated axes three, axis activity three. Each step is rounded.
    pub open spec fn controls_rating(self) -> Binary32 {
        let total = Binary32::of_int(self.samples as int);
        Binary32::of_int(0).plus(
            Binary32::of_int(6).times(share(self.trig_hi_zero, total)),
        ).plus(Binary32::of_int(2).times(share(self.trig_activity, total))).plus(
            Binary32::of_int(3).times(share(self.axes_non_extreme, total)),
        ).plus(Binary32::of_int(3).times(share(self.axes_activity, total)))
    }

    /// How button changes rate: few add two, many take off four.
    pub open spec fn changes_rating(self) -> Binary32 {
        let total = Binary32::of_int(self.samples as int);
        if share(self.buttons_change_count, total).less((Binary32 { bits: QUARTER_BITS })) {
            Binary32::of_int(2)
        } else {
            Binary32::of_int(-4)
        }
    }

    /// How the buttons held at a time rate: few add two, many take off three.
    pub open spec fn held_rating(self) -> Binary32 {
        let total = Binary32::of_int(self.samples as int);
        if share(self.buttons_popcount_sum, total).less(Binary32::of_int(4)) {
            Binary32::of_int(2)
        } else {
            Binary32::of_int(-3)
        }
    }

    /// How the offset rates in all. Each step is rounded.
    pub open spec fn rating(self) -> Binary32 {
        self.controls_rating().plus(self.changes_rating()).plus(self.held_rating())
    }

    /// The buttons changed in at least a quarter of the samples.
    pub open spec fn changes_often(self) -> bool {
        4 * self.buttons_change_count >= self.samples
    }

    /// At least four buttons were held on average.
    pub open spec fn holds_many(self) -> bool {
        self.buttons_popcount_sum >= 4 * self.samples
    }

    /// What the two limits on the buttons add to the rating.
    spec fn button_points(self) -> (int, int) {
        (
            if self.changes_often() {
                -4
            } else {
                2
            },
            if self.holds_many() {
                -3
            } else {
                2
            },
        )
    }

    /// The rating in hundredths, towards zero; far below every rating where nothing
    /// was seen.
    #[verifier::opaque]
    pub open spec fn score_spec(self) -> int {
        if self.samples == 0 {
            i32::MIN as int / 2
        } else {
            self.rating().times(Binary32::of_int(100)).truncated_spec()
        }
    }

    /// Nothing seen yet.
    pub fn new() -> (r: Self)
        ensures
            r == LayoutStats::fresh(),
    {
        LayoutStats {
            samples: 0,
            trig_hi_zero: 0,
            trig_activity: 0,
            axes_non_extreme: 0,
            axes_activity: 0,
            buttons_change_count: 0,
            buttons_popcount_sum: 0,
            last_buttons: None,
        }
    }

    /// Whether the counters have room for the block at `off` in the payload.
    fn room_for_block(&self, payload: &[u8], off: usize) -> (r: bool)
        requires
            off + INPUT_LEN <= payload@.len(),
        ensures
            r == self.has_room(block_at(payload@, off as int)),
    {
        let raw = RawInput::read(payload, off);
        let changed: bool = match self.last_buttons {
            Some(prev) => prev != raw.buttons,
            None => false,
        };
        self.samples < u32::MAX && (self.trig_hi_zero < u32::MAX || !(raw.lt < 1024 && raw.rt
            < 1024)) && (self.trig_activity < u32::MAX || !(raw.lt % 1024 > 4 || raw.rt % 1024 > 4))
            && (self.axes_non_extreme < u32::MAX || !(is_inside(raw.lx) && is_inside(raw.ly)
            && is_inside(raw.rx) && is_inside(raw.ry))) && (self.axes_activity < u32::MAX || !(
        is_active(raw.lx) || is_active(raw.ly) || is_active(raw.rx) || is_active(raw.ry))) && (
        self.buttons_change_count < u32::MAX || !changed) && self.buttons_popcount_sum <= u32::MAX
            - count_ones(raw.buttons)
    }

    /// Counts the block at `off` in the payload, if the payload holds a whole block
    /// there.
    pub fn observe(&mut self, payload: &[u8], off: usize)
        requires
            off + INPUT_LEN <= usize::MAX,
            old(self).room_at(payload@, off as int),
        ensures
            *final(self) == old(self).after_block(payload@, off as int),
    {
        if payload.len() < off + INPUT_LEN {
            return;
        }
        let raw = RawInput::read(payload, off);
        self.samples = self.samples + 1;
        if raw.lt < 1024 && raw.rt < 1024 {
            self.trig_hi_zero = self.trig_hi_zero + 1;
        }
        if raw.lt % 1024 > 4 || raw.rt % 1024 > 4 {
            self.trig_activity = self.trig_activity + 1;
        }
        if is_inside(raw.lx) && is_inside(raw.ly) && is_inside(raw.rx) && is_inside(raw.ry) {
            self.axes_non_extreme = self.axes_non_extreme + 1;
        }
        if is_active(raw.lx) || is_active(raw.ly) || is_active(raw.rx) || is_active(raw.ry) {
            self.axes_activity = self.axes_activity + 1;
        }
        if let Some(prev) = self.last_buttons {
            if prev != raw.buttons {
                self.buttons_change_count = self.buttons_change_count + 1;
            }
        }
        self.last_buttons = Some(raw.buttons);
        self.buttons_popcount_sum = self.buttons_popcount_sum + count_ones(raw.buttons);
    }

    /// The rating in hundredths, towards zero; far below every rating where nothing
    /// was seen.
    pub fn score(&self) -> (r: i32)
        ensures
            r == self.score_spec(),
    {
        proof {
            reveal(LayoutStats::score_spec);
        }
        if self.samples == 0 {
            return -0x4000_0000;
        }
        let s = Binary32::from_int(self.samples as i64);
        let trig_hi_zero = Binary32::from_int(self.trig_hi_zero as i64).over(s);
        let trig_activity = Binary32::from_int(self.trig_activity as i64).over(s);
        let axes_non_extreme = Binary32::from_int(self.axes_non_extreme as i64).over(s);
        let axes_activity = Binary32::from_int(self.axes_activity as i64).over(s);
        let btn_changes = Binary32::from_int(self.buttons_change_count as i64).over(s);
        let btn_pop_avg = Binary32::from_int(self.buttons_popcount_sum as i64).over(s);
        let mut score = Binary32::from_int(0);
        score = score.plus(Binary32::from_int(6).times(trig_hi_zero));
        score = score.plus(Binary32::from_int(2).times(trig_activity));
        score = score.plus(Binary32::from_int(3).times(axes_non_extreme));
        score = score.plus(Binary32::from_int(3).times(axes_activity));
        score = score.plus(
            if btn_changes.less(Binary32::from_bits(QUARTER_BITS)) {
                Binary32::from_int(2)
            } else {
                Binary32::from_int(-4)
            },
        );
        score = score.plus(
            if btn_pop_avg.less(Binary32::from_int(4)) {
                Binary32::from_int(2)
            } else {
                Binary32::from_int(-3)
            },
        );
        score.times(Binary32::from_int(100)).truncated()
    }
}

impl LayoutStats {
    /// No trigger or axis counter is ahead of the number of samples.
    pub open spec fn controls_counted(self) -> bool {
        &&& self.trig_hi_zero <= self.samples
        &&& self.trig_activity <= self.samples
        &&& self.axes_non_extreme <= self.samples
        &&& self.axes_activity <= self.samples
    }

    /// No counter is ahead of the number of samples, the first sample is no change of the
    /// buttons, no sample has more than sixteen buttons held, and the buttons of the last
    /// sample are known as soon as there is one.
    pub open spec fn consistent(self) -> bool {
        &&& self.controls_counted()
        &&& self.samples > 0 ==> self.buttons_change_count < self.samples
        &&& self.samples == 0 ==> self.buttons_change_count == 0
        &&& self.buttons_popcount_sum <= 16 * self.samples
        &&& self.last_buttons is Some <==> self.samples > 0
    }
}

/// Counting starts consistent, and every sample keeps it so.
pub proof fn law_counters_stay_consistent(stats: LayoutStats, raw: RawInput)
    requires
        stats.consistent(),
        stats.has_room(raw),
    ensures
        LayoutStats::fresh().consistent(),
        stats.after(raw).consistent(),
        stats.after(raw).samples == stats.samples + 1,
{
    vstd::arithmetic::power2::lemma2_to64();
    lemma_ones_bound(raw.buttons as nat, 16);
}

/// Only the block at the offset counts: the bytes of the payload around it have no
/// influence on what is counted, nor on whether there is room for it.
pub proof fn law_only_block_counts(stats: LayoutStats, payload: Seq<u8>, off: nat)
    requires
        off + INPUT_LEN <= payload.len(),
    ensures
        ({
            let block = payload.subrange(off as int, off + INPUT_LEN);
            &&& stats.after_block(payload, off as int) == stats.after_block(block, 0)
            &&& stats.room_at(payload, off as int) == stats.room_at(block, 0)
        }),
{
    let block = payload.subrange(off as int, off + INPUT_LEN);
    assert(block.subrange(0, INPUT_LEN as int) =~= block);
}

/// What triggers and axes give is from 0 to 14, and what the buttons give is a whole number.
proof fn lemma_rating_parts(stats: LayoutStats)
    requires
        stats.controls_counted(),
        stats.samples > 0,
    ensures
        precision::within(stats.controls_rating(), 0, 14),
        precision::within(stats.changes_rating(), -4, 2),
        precision::within(stats.held_rating(), -3, 2),
{
    let total = Binary32::of_int(stats.samples as int);
    let fit = share(stats.trig_hi_zero, total);
    let trig = share(stats.trig_activity, total);
    let calm = share(stats.axes_non_extreme, total);
    let axes = share(stats.axes_activity, total);
    precision::lemma_share_within(stats.trig_hi_zero, stats.samples);
    precision::lemma_share_within(stats.trig_activity, stats.samples);
    precision::lemma_share_within(stats.axes_non_extreme, stats.samples);
    precision::lemma_share_within(stats.axes_activity, stats.samples);
    precision::lemma_times_within(fit, 0, 1, 6);
    precision::lemma_times_within(trig, 0, 1, 2);
    precision::lemma_times_within(calm, 0, 1, 3);
    precision::lemma_times_within(axes, 0, 1, 3);
    precision::lemma_of_int(0);
    precision::lemma_of_int(2);
    precision::lemma_of_int(-3);
    precision::lemma_of_int(-4);
    vstd::arithmetic::power2::lemma_pow2_pos(149);
    let s0 = Binary32::of_int(0);
    let s1 = s0.plus(Binary32::of_int(6).times(fit));
    let s2 = s1.plus(Binary32::of_int(2).times(trig));
    let s3 = s2.plus(Binary32::of_int(3).times(calm));
    precision::lemma_plus_within(s0, 0, 0, Binary32::of_int(6).times(fit), 0, 6);
    precision::lemma_plus_within(s1, 0, 6, Binary32::of_int(2).times(trig), 0, 2);
    precision::lemma_plus_within(s2, 0, 8, Binary32::of_int(3).times(calm), 0, 3);
    precision::lemma_plus_within(s3, 0, 11, Binary32::of_int(3).times(axes), 0, 3);
}

/// The bounds of the score, from those of the rating's parts.
proof fn lemma_score_within(stats: LayoutStats, lo: int, hi: int, t: int, u: int, v: int, w: int)
    requires
        stats.samples > 0,
        precision::within(stats.controls_rating(), lo, hi),
        precision::within(stats.changes_rating(), t, u),
        precision::within(stats.held_rating(), v, w),
        0 <= lo <= hi <= 14,
        -4 <= t <= u <= 2,
        -3 <= v <= w <= 2,
    ensures
        100 * (lo + t + v) <= stats.score_spec() <= 100 * (hi + u + w),
{
    reveal(LayoutStats::score_spec);
    let partial = stats.controls_rating().plus(stats.changes_rating());
    precision::lemma_plus_within(stats.controls_rating(), lo, hi, stats.changes_rating(), t, u);
    precision::lemma_plus_within(partial, lo + t, hi + u, stats.held_rating(), v, w);
    precision::lemma_times_within(stats.rating(), lo + t + v, hi + u + w, 100);
    precision::lemma_truncated_within(
        stats.rating().times(Binary32::of_int(100)),
        (lo + t + v) * 100,
        (hi + u + w) * 100,
    );
}

/// Where anything was seen, the score is from -700 to 1800; where nothing was, it is
/// below that.
pub proof fn law_score_range(stats: LayoutStats)
    requires
        stats.controls_counted(),
    ensures
        stats.samples > 0 ==> -700 <= stats.score_spec() <= 1800,
        stats.samples == 0 ==> stats.score_spec() < -700,
{
    if stats.samples > 0 {
        lemma_rating_parts(stats);
        lemma_score_within(stats, 0, 14, -4, 2, -3, 2);
    } else {
        reveal(LayoutStats::score_spec);
    }
}

/// The score never falls when a trigger or axis counter rises and the number of samples
/// and the button counters stay.
pub proof fn law_score_rises_with_controls(low: LayoutStats, high: LayoutStats)
    requires
        low.samples == high.samples,
        low.trig_hi_zero <= high.trig_hi_zero,
        low.trig_activity <= high.trig_activity,
        low.axes_non_extreme <= high.axes_non_extreme,
        low.axes_activity <= high.axes_activity,
        low.buttons_change_count == high.buttons_change_count,
        low.buttons_popcount_sum == high.buttons_popcount_sum,
    ensures
        low.score_spec() <= high.score_spec(),
{
    reveal(LayoutStats::score_spec);
    if low.samples > 0 {
        let n = low.samples;
        let zero = Binary32::of_int(0);
        lemma_small(0);
        let (a1, b1) = lemma_term_order(zero, zero, low.trig_hi_zero, high.trig_hi_zero, n, 39, 6);
        let (a2, b2) = lemma_term_order(a1, b1, low.trig_activity, high.trig_activity, n, 40, 2);
        let (a3, b3) = lemma_term_order(
            a2,
            b2,
            low.axes_non_extreme,
            high.axes_non_extreme,
            n,
            41,
            3,
        );
        let (a4, b4) = lemma_term_order(a3, b3, low.axes_activity, high.axes_activity, n, 42, 3);
        let t = low.changes_rating();
        let v = low.held_rating();
        lemma_small(2);
        lemma_small(-3);
        lemma_small(-4);
        assert(precision::below_power(t, 43));
        assert(precision::below_power(v, 44));
        precision::lemma_plus_power(a4, t, 43);
        precision::lemma_plus_power(b4, t, 43);
        precision::lemma_plus_order(a4, t, b4, t);
        let (a5, b5) = (a4.plus(t), b4.plus(t));
        precision::lemma_plus_power(a5, v, 44);
        precision::lemma_plus_power(b5, v, 44);
        precision::lemma_plus_order(a5, v, b5, v);
        precision::lemma_of_int(100);
        precision::lemma_times_order(low.rating(), high.rating(), Binary32::of_int(100));
        precision::lemma_truncated_order(
            low.rating().times(Binary32::of_int(100)),
            high.rating().times(Binary32::of_int(100)),
        );
    }
}

/// Small whole numbers are far below every bound used here.
proof fn lemma_small(n: int)
    requires
        -4 <= n <= 4,
    ensures
        forall|e: nat| 39 <= e ==> #[trigger] precision::below_power(Binary32::of_int(n), e),
{
    precision::lemma_of_int(n);
    vstd::arithmetic::power2::lemma2_to64();
    let one = vstd::arithmetic::power2::pow2(149);
    assert(-4 * one <= n * one <= 4 * one) by (nonlinear_arith)
        requires
            -4 <= n <= 4,
    ;
    vstd::arithmetic::power2::lemma_pow2_adds(2, 149);
    assert forall|e: nat| 39 <= e implies #[trigger] precision::below_power(
        Binary32::of_int(n),
        e,
    ) by {
        rounding::lemma_pow2_monotone(151, 149 + e);
    }
}

/// Adding a weighted share keeps the order of two partial ratings.
proof fn lemma_term_order(
    a: Binary32,
    b: Binary32,
    low: u32,
    high: u32,
    samples: u32,
    e: nat,
    weight: int,
) -> (r: (Binary32, Binary32))
    requires
        0 < samples,
        low <= high,
        39 <= e <= 50,
        1 <= weight <= 6,
        precision::below_power(a, e),
        precision::below_power(b, e),
        a.units() <= b.units(),
    ensures
        r.0 == a.plus(
            Binary32::of_int(weight).times(share(low, Binary32::of_int(samples as int))),
        ),
        r.1 == b.plus(
            Binary32::of_int(weight).times(share(high, Binary32::of_int(samples as int))),
        ),
        precision::below_power(r.0, e + 1),
        precision::below_power(r.1, e + 1),
        r.0.units() <= r.1.units(),
{
    let w = Binary32::of_int(weight);
    let x = share(low, Binary32::of_int(samples as int));
    let y = share(high, Binary32::of_int(samples as int));
    precision::lemma_of_int(weight);
    precision::lemma_share_power(low, samples);
    precision::lemma_share_power(high, samples);
    precision::lemma_share_order(low, high, samples);
    precision::lemma_times_power(x, weight, 32);
    precision::lemma_times_power(y, weight, 32);
    precision::lemma_times_order(x, y, w);
    rounding::lemma_pow2_monotone(188, 149 + e);
    precision::lemma_plus_power(a, w.times(x), e);
    precision::lemma_plus_power(b, w.times(y), e);
    precision::lemma_plus_order(a, w.times(x), b, w.times(y));
    (a.plus(w.times(x)), b.plus(w.times(y)))
}

/// With the same samples, triggers and axes, the score falls strictly when the buttons come
/// to change in a quarter of the samples, or when four come to be held on average, and else
/// the button counters have no influence. Beyond 2^22 samples a sum just below four per
/// sample may round to four.
pub proof fn law_score_falls_with_buttons(calm: LayoutStats, busy: LayoutStats)
    requires
        0 < calm.samples <= 0x40_0000,
        calm.controls_counted(),
        busy.samples == calm.samples,
        busy.trig_hi_zero == calm.trig_hi_zero,
        busy.trig_activity == calm.trig_activity,
        busy.axes_non_extreme == calm.axes_non_extreme,
        busy.axes_activity == calm.axes_activity,
        calm.changes_often() ==> busy.changes_often(),
        calm.holds_many() ==> busy.holds_many(),
    ensures
        busy.score_spec() == calm.score_spec() <==> busy.changes_often() == calm.changes_often()
            && busy.holds_many() == calm.holds_many(),
        busy.score_spec() <= calm.score_spec(),
{
    let one = vstd::arithmetic::power2::pow2(149) as int;
    let r = calm.controls_rating();
    lemma_button_ratings(calm);
    lemma_button_ratings(busy);
    if busy.changes_often() == calm.changes_often() && busy.holds_many() == calm.holds_many() {
        reveal(LayoutStats::score_spec);
        assert(busy.rating() == calm.rating());
    } else {
        lemma_rating_parts(calm);
        vstd::arithmetic::power2::lemma_pow2_pos(149);
        vstd::arithmetic::div_mod::lemma_fundamental_div_mod(r.units(), one);
        let k = r.units() / one;
        assert(0 <= k <= 14 && k * one <= r.units() <= (k + 1) * one && (k == 14 ==> r.units()
            == 14 * one)) by (nonlinear_arith)
            requires
                one > 0,
                0 <= r.units() <= 14 * one,
                r.units() == one * k + r.units() % one,
                0 <= r.units() % one < one,
        ;
        let hi: int = if k == 14 {
            14
        } else {
            k + 1
        };
        let (t, v) = calm.button_points();
        let (u, w) = busy.button_points();
        lemma_score_within(calm, k, hi, t, t, v, v);
        lemma_score_within(busy, k, hi, u, u, w, w);
    }
}

/// The button parts of the rating, from the two limits.
proof fn lemma_button_ratings(stats: LayoutStats)
    requires
        0 < stats.samples <= 0x40_0000,
    ensures
        stats.changes_rating() == Binary32::of_int(stats.button_points().0),
        stats.held_rating() == Binary32::of_int(stats.button_points().1),
        precision::within(
            stats.changes_rating(),
            stats.button_points().0,
            stats.button_points().0,
        ),
        precision::within(stats.held_rating(), stats.button_points().1, stats.button_points().1),
{
    precision::lemma_share_below_quarter(stats.buttons_change_count, stats.samples);
    precision::lemma_share_below_four(stats.buttons_popcount_sum, stats.samples);
    precision::lemma_of_int(2);
    precision::lemma_of_int(-3);
    precision::lemma_of_int(-4);
}

/// The score looks at shares only: doubling the samples and every counter leaves it as it
/// is.
pub proof fn law_score_of_doubled(stats: LayoutStats, twice: LayoutStats)
    requires
        twice.samples == 2 * stats.samples,
        twice.trig_hi_zero == 2 * stats.trig_hi_zero,
        twice.trig_activity == 2 * stats.trig_activity,
        twice.axes_non_extreme == 2 * stats.axes_non_extreme,
        twice.axes_activity == 2 * stats.axes_activity,
        twice.buttons_change_count == 2 * stats.buttons_change_count,
        twice.buttons_popcount_sum == 2 * stats.buttons_popcount_sum,
    ensures
        twice.score_spec() == stats.score_spec(),
{
    reveal(LayoutStats::score_spec);
    if stats.samples > 0 {
        precision::lemma_share_double(stats.trig_hi_zero, stats.samples);
        precision::lemma_share_double(stats.trig_activity, stats.samples);
        precision::lemma_share_double(stats.axes_non_extreme, stats.samples);
        precision::lemma_share_double(stats.axes_activity, stats.samples);
        precision::lemma_share_double(stats.buttons_change_count, stats.samples);
        precision::lemma_share_double(stats.buttons_popcount_sum, stats.samples);
        assert(twice.rating() == stats.rating());
    }
}

/// The largest offset at which the payload may hold a block; 0 where it holds none.
pub open spec fn last_offset(payload: Seq<u8>) -> int {
    if payload.len() >= INPUT_LEN {
        payload.len() - INPUT_LEN
    } else {
        0
    }
}

/// Whether the payload gives a sample for offset `i`: the offset is even and the
/// block ends within the payload.
pub open spec fn sampled(payload: Seq<u8>, i: int) -> bool {
    0 <= i && i % 2 == 0 && i + INPUT_LEN <= payload.len()
}

/// The block at offset `i`.
pub open spec fn block_at(payload: Seq<u8>, i: int) -> RawInput {
    RawInput::of(payload.subrange(i, i + INPUT_LEN))
}

/// What is known of offset `i`: nothing beyond the offsets watched so far.
pub open spec fn stats_at(stats: Seq<LayoutStats>, i: int) -> LayoutStats {
    if 0 <= i < stats.len() {
        stats[i]
    } else {
        LayoutStats::fresh()
    }
}

/// Whether the counters of every offset have room for the payload's samples.
pub open spec fn room_for(stats: Seq<LayoutStats>, payload: Seq<u8>) -> bool {
    forall|i: int| #[trigger]
        sampled(payload, i) ==> stats_at(stats, i).has_room(block_at(payload, i))
}

/// What is known of offset `i` after the payload.
pub open spec fn stats_after(stats: Seq<LayoutStats>, payload: Seq<u8>, i: int) -> LayoutStats {
    if sampled(payload, i) {
        stats_at(stats, i).after(block_at(payload, i))
    } else {
        stats_at(stats, i)
    }
}

/// What is known of all offsets after the payload: as many as were watched before, or
/// as the payload may hold a block at, whichever is more.
pub open spec fn all_after(stats: Seq<LayoutStats>, payload: Seq<u8>) -> Seq<LayoutStats> {
    Seq::new(
        if stats.len() > last_offset(payload) {
            stats.len()
        } else {
            (last_offset(payload) + 1) as nat
        },
        |i: int| stats_after(stats, payload, i),
    )
}

/// The largest number of samples at any offset.
pub open spec fn most_samples(stats: Seq<LayoutStats>) -> u32
    decreases stats.len(),
{
    if stats.len() == 0 {
        0
    } else {
        let rest = most_samples(stats.drop_last());
        if stats.last().samples > rest {
            stats.last().samples
        } else {
            rest
        }
    }
}

/// Whether `best` is the even offset with the highest score; of several, the last.
pub open spec fn is_best(stats: Seq<LayoutStats>, best: int) -> bool {
    &&& 0 <= best < stats.len()
    &&& best % 2 == 0
    &&& forall|i: int|
        0 <= i < stats.len() && i % 2 == 0 ==> (#[trigger] stats[i]).score_spec()
            <= stats[best].score_spec()
    &&& forall|i: int|
        best < i < stats.len() && i % 2 == 0 ==> (#[trigger] stats[i]).score_spec()
            < stats[best].score_spec()
}

/// The even offset with the highest score; of several, the last.
pub open spec fn best_of(stats: Seq<LayoutStats>) -> int {
    choose|best: int| is_best(stats, best)
}

proof fn lemma_best_unique(stats: Seq<LayoutStats>, best: int)
    requires
        is_best(stats, best),
    ensures
        best_of(stats) == best,
{
    let other = best_of(stats);
    assert(is_best(stats, other));
    assert(stats[best].score_spec() <= stats[other].score_spec());
    assert(stats[other].score_spec() <= stats[best].score_spec());
}

/// The offset to take, `elapsed_ns` after watching began; none where offsets were not
/// watched long enough.
pub open spec fn decision(stats: Seq<LayoutStats>, elapsed_ns: u128) -> Option<usize> {
    if watched_enough(stats, elapsed_ns) {
        Some(best_of(stats) as usize)
    } else {
        None
    }
}

/// Whether watching may end.
pub open spec fn watched_enough(stats: Seq<LayoutStats>, elapsed_ns: u128) -> bool {
    elapsed_ns >= LAYOUT_DETECT_WINDOW_NS && most_samples(stats) >= LAYOUT_MIN_SAMPLES
}

/// What is known of the first `total` offsets when those below `2 * k` were counted.
#[verifier::opaque]
spec fn counted(before: Seq<LayoutStats>, payload: Seq<u8>, total: nat, k: int) -> Seq<
    LayoutStats,
> {
    Seq::new(
        total,
        |i: int|
            if i < 2 * k {
                stats_after(before, payload, i)
            } else {
                stats_at(before, i)
            },
    )
}

proof fn lemma_counted_start(before: Seq<LayoutStats>, payload: Seq<u8>, stats: Seq<LayoutStats>)
    requires
        forall|i: int| 0 <= i < stats.len() ==> stats[i] == stats_at(before, i),
    ensures
        stats == counted(before, payload, stats.len(), 0),
{
    reveal(counted);
    assert(stats =~= counted(before, payload, stats.len(), 0));
}

proof fn lemma_counted_entry(before: Seq<LayoutStats>, payload: Seq<u8>, total: nat, k: int)
    requires
        room_for(before, payload),
        0 <= 2 * k < total,
    ensures
        counted(before, payload, total, k).len() == total,
        counted(before, payload, total, k)[2 * k].room_at(payload, 2 * k),
{
    reveal(counted);
    assert(counted(before, payload, total, k)[2 * k] == stats_at(before, 2 * k));
    if 2 * k + INPUT_LEN <= payload.len() {
        assert(sampled(payload, 2 * k));
    }
}

proof fn lemma_counted_step(before: Seq<LayoutStats>, payload: Seq<u8>, total: nat, k: int)
    requires
        0 <= 2 * k < total,
    ensures
        ({
            let was = counted(before, payload, total, k);
            was.update(2 * k, was[2 * k].after_block(payload, 2 * k)) == counted(
                before,
                payload,
                total,
                k + 1,
            )
        }),
{
    reveal(counted);
    let was = counted(before, payload, total, k);
    let next = counted(before, payload, total, k + 1);
    let made = was.update(2 * k, was[2 * k].after_block(payload, 2 * k));
    assert(was[2 * k].after_block(payload, 2 * k) == stats_after(before, payload, 2 * k));
    assert(2 * k + 1 < total ==> !sampled(payload, 2 * k + 1));
    assert(made =~= next);
}

proof fn lemma_counted_all(before: Seq<LayoutStats>, payload: Seq<u8>, total: nat, k: int)
    requires
        k == last_offset(payload) / 2 + 1,
        total == if before.len() > last_offset(payload) {
            before.len() as int
        } else {
            last_offset(payload) + 1
        },
    ensures
        counted(before, payload, total, k) == all_after(before, payload),
{
    reveal(counted);
    assert forall|i: int| 2 * k <= i implies !#[trigger] sampled(payload, i) by {}
    assert forall|i: int| 0 <= i < total implies counted(before, payload, total, k)[i]
        == stats_after(before, payload, i) by {
        if i >= 2 * k {
            assert(!sampled(payload, i));
        }
    }
    assert(counted(before, payload, total, k) =~= all_after(before, payload));
}

/// Whether `best` is the last of the best even offsets below `2 * k`.
#[verifier::opaque]
spec fn leads(stats: Seq<LayoutStats>, k: int, best: int) -> bool {
    &&& 0 <= best < stats.len()
    &&& best < 2 * k
    &&& best % 2 == 0
    &&& forall|i: int|
        0 <= i < 2 * k && i < stats.len() && i % 2 == 0 ==> (#[trigger] stats[i]).score_spec()
            <= stats[best].score_spec()
    &&& forall|i: int|
        best < i < 2 * k && i < stats.len() && i % 2 == 0 ==> (#[trigger] stats[i]).score_spec()
            < stats[best].score_spec()
}

proof fn lemma_leads_start(stats: Seq<LayoutStats>)
    requires
        stats.len() > 0,
    ensures
        leads(stats, 1, 0),
{
    reveal(leads);
}

proof fn lemma_leads_step(stats: Seq<LayoutStats>, k: int, best: int)
    requires
        leads(stats, k, best),
        0 <= 2 * k < stats.len(),
    ensures
        stats[2 * k].score_spec() >= stats[best].score_spec() ==> leads(stats, k + 1, 2 * k),
        stats[2 * k].score_spec() < stats[best].score_spec() ==> leads(stats, k + 1, best),
{
    reveal(leads);
}

proof fn lemma_leads_all(stats: Seq<LayoutStats>, k: int, best: int)
    requires
        leads(stats, k, best),
        2 * k >= stats.len(),
    ensures
        is_best(stats, best),
{
    reveal(leads);
}

/// The watch over all offsets.
#[derive(Debug)]
pub struct LayoutDetector {
    stats: Vec<LayoutStats>,
}

impl View for LayoutDetector {
    type V = Seq<LayoutStats>;

    closed spec fn view(&self) -> Seq<LayoutStats> {
        self.stats@
    }
}

impl LayoutDetector {
    /// No offset watched yet.
    pub fn new() -> (r: Self)
        ensures
            r@ == Seq::<LayoutStats>::empty(),
    {
        LayoutDetector { stats: Vec::new() }
    }

    /// What was seen at offset `i`, if it is watched.
    pub fn stats(&self, i: usize) -> (r: Option<LayoutStats>)
        ensures
            r == if i < self@.len() {
                Some(self@[i as int])
            } else {
                None
            },
    {
        if i < self.stats.len() {
            Some(self.stats[i])
        } else {
            None
        }
    }

    /// Whether the counters of every offset have room for the payload's samples.
    pub fn has_room_for(&self, payload: &[u8]) -> (r: bool)
        ensures
            r == room_for(self@, payload@),
    {
        assert(payload@.len() == payload.len());
        if payload.len() < INPUT_LEN {
            return true;
        }
        let pairs: usize = (payload.len() - INPUT_LEN) / 2;
        let mut k: usize = 0;
        loop
            invariant
                k <= pairs,
                payload@.len() == payload.len(),
                INPUT_LEN <= payload@.len(),
                pairs == (payload@.len() - INPUT_LEN) / 2,
                forall|i: int| #[trigger]
                    sampled(payload@, i) && i < 2 * k ==> stats_at(self@, i).has_room(
                        block_at(payload@, i),
                    ),
            decreases pairs - k,
        {
            let i: usize = 2 * k;
            let trial: LayoutStats = if i < self.stats.len() {
                self.stats[i]
            } else {
                LayoutStats::new()
            };
            assert(sampled(payload@, i as int));
            if !trial.room_for_block(payload, i) {
                return false;
            }
            if k == pairs {
                assert(forall|j: int| #[trigger]
                    sampled(payload@, j) ==> j <= i);
                return true;
            }
            k = k + 1;
        }
    }

    /// Counts the block at the watched offset `off`, if the payload holds a whole block
    /// there.
    fn observe_at(&mut self, payload: &[u8], off: usize)
        requires
            off < old(self)@.len(),
            off + INPUT_LEN <= usize::MAX,
            old(self)@[off as int].room_at(payload@, off as int),
        ensures
            final(self)@ == old(self)@.update(
                off as int,
                old(self)@[off as int].after_block(payload@, off as int),
            ),
    {
        let mut entry: LayoutStats = self.stats[off];
        entry.observe(payload, off);
        self.stats.set(off, entry);
    }

    /// Counts the payload's samples.
    pub fn observe(&mut self, payload: &[u8])
        requires
            room_for(old(self)@, payload@),
        ensures
            final(self)@ == all_after(old(self)@, payload@),
    {
        assert(payload@.len() == payload.len());
        let max_off: usize = if payload.len() >= INPUT_LEN {
            payload.len() - INPUT_LEN
        } else {
            0
        };
        let ghost before = self.stats@;
        while self.stats.len() <= max_off
            invariant
                max_off < usize::MAX,
                self.stats@.len() == if before.len() > self.stats@.len() {
                    before.len()
                } else {
                    self.stats@.len()
                },
                self.stats@.len() <= max_off + 1 || self.stats@.len() == before.len(),
                forall|i: int|
                    0 <= i < self.stats@.len() ==> self.stats@[i] == stats_at(before, i),
            decreases max_off + 1 - self.stats@.len(),
        {
            self.stats.push(LayoutStats::new());
        }
        let ghost total = self.stats@.len();
        proof {
            lemma_counted_start(before, payload@, self.stats@);
        }
        let mut k: usize = 0;
        while k < max_off / 2 + 1
            invariant
                k <= max_off / 2 + 1,
                max_off + INPUT_LEN <= usize::MAX,
                max_off < total,
                room_for(before, payload@),
                self.stats@ == counted(before, payload@, total, k as int),
            decreases max_off / 2 + 1 - k,
        {
            let off: usize = 2 * k;
            proof {
                lemma_counted_entry(before, payload@, total, k as int);
                lemma_counted_step(before, payload@, total, k as int);
            }
            self.observe_at(payload, off);
            k = k + 1;
        }
        proof {
            lemma_counted_all(before, payload@, total, k as int);
        }
    }

    /// The largest number of samples at any offset.
    pub fn samples(&self) -> (r: u32)
        ensures
            r == most_samples(self@),
    {
        let mut most: u32 = 0;
        let mut i: usize = 0;
        while i < self.stats.len()
            invariant
                i <= self.stats@.len(),
                most == most_samples(self.stats@.take(i as int)),
            decreases self.stats@.len() - i,
        {
            assert(self.stats@.take(i + 1).drop_last() =~= self.stats@.take(i as int));
            if self.stats[i].samples > most {
                most = self.stats[i].samples;
            }
            i = i + 1;
        }
        assert(self.stats@.take(i as int) =~= self.stats@);
        most
    }

    /// The even offset with the highest score; of several, the last.
    pub fn best_offset(&self) -> (r: Option<usize>)
        ensures
            match r {
                Some(best) => is_best(self@, best as int),
                None => self@.len() == 0,
            },
    {
        let len: usize = self.stats.len();
        if len == 0 {
            return None;
        }
        let mut best: usize = 0;
        let mut best_score: i32 = self.stats[0].score();
        let mut k: usize = 1;
        proof {
            lemma_leads_start(self.stats@);
        }
        while k < len / 2 + len % 2
            invariant
                len == self.stats@.len(),
                1 <= k <= len / 2 + len % 2,
                best < len,
                best_score == self.stats@[best as int].score_spec(),
                leads(self.stats@, k as int, best as int),
            decreases len - k,
        {
            let i: usize = 2 * k;
            let score: i32 = self.stats[i].score();
            proof {
                lemma_leads_step(self.stats@, k as int, best as int);
            }
            if score >= best_score {
                best = i;
                best_score = score;
            }
            k = k + 1;
        }
        proof {
            lemma_leads_all(self.stats@, k as int, best as int);
        }
        Some(best)
    }

    /// The offset to take, once offsets were watched long enough.
    pub fn decide(&self, elapsed_ns: u128) -> (r: Option<usize>)
        ensures
            r == decision(self@, elapsed_ns),
            r matches Some(best) ==> is_best(self@, best as int),
    {
        if elapsed_ns >= LAYOUT_DETECT_WINDOW_NS && self.samples() >= LAYOUT_MIN_SAMPLES {
            let r: Option<usize> = self.best_offset();
            proof {
                if let Some(best) = r {
                    lemma_best_unique(self@, best as int);
                }
            }
            r
        } else {
            None
        }
    }
}

/// The counters that watching leads to: consistent, nothing at odd offsets, and no more
/// than `packets` samples.
pub open spec fn watched(stats: Seq<LayoutStats>, packets: nat) -> bool {
    forall|i: int|
        0 <= i < stats.len() ==> (#[trigger] stats[i]).consistent() && stats[i].samples <= packets
            && (i % 2 == 1 ==> stats[i] == LayoutStats::fresh())
}

/// Watching starts with no samples, and a payload adds at most one sample per offset,
/// none at odd offsets, and keeps the counters consistent.
pub proof fn law_watching_stays_consistent(
    stats: Seq<LayoutStats>,
    payload: Seq<u8>,
    packets: nat,
)
    requires
        watched(stats, packets),
        room_for(stats, payload),
    ensures
        watched(Seq::empty(), 0),
        watched(all_after(stats, payload), packets + 1),
{
    let next = all_after(stats, payload);
    assert forall|i: int| 0 <= i < next.len() implies (#[trigger] next[i]).consistent()
        && next[i].samples <= packets + 1 && (i % 2 == 1 ==> next[i]
        == LayoutStats::fresh()) by {
        let was = stats_at(stats, i);
        assert(was.consistent());
        assert(next[i] == stats_after(stats, payload, i));
        if sampled(payload, i) {
            law_counters_stay_consistent(was, block_at(payload, i));
        }
    }
}

/// There is room for every payload until 2^28 - 1 packets were watched.
pub proof fn law_room_for_many_packets(stats: Seq<LayoutStats>, packets: nat, payload: Seq<u8>)
    requires
        watched(stats, packets),
        packets < 0xFFF_FFFF,
    ensures
        room_for(stats, payload),
{
    vstd::arithmetic::power2::lemma2_to64();
    assert forall|i: int| #[trigger] sampled(payload, i) implies stats_at(stats, i).has_room(
        block_at(payload, i),
    ) by {
        assert(stats_at(stats, i).consistent());
        lemma_ones_bound(block_at(payload, i).buttons as nat, 16);
    }
}

proof fn lemma_most_samples(stats: Seq<LayoutStats>) -> (i: int)
    requires
        most_samples(stats) > 0,
    ensures
        0 <= i < stats.len(),
        stats[i].samples == most_samples(stats),
    decreases stats.len(),
{
    let rest = most_samples(stats.drop_last());
    if stats.last().samples > rest {
        stats.len() - 1
    } else {
        lemma_most_samples(stats.drop_last())
    }
}

/// There is an offset with the highest score as soon as one is watched.
proof fn lemma_best_exists(stats: Seq<LayoutStats>, upto: nat) -> (best: int)
    requires
        0 < upto <= stats.len(),
    ensures
        is_best(stats.take(upto as int), best),
    decreases upto,
{
    let part = stats.take(upto as int);
    if upto == 1 {
        0
    } else {
        let b = lemma_best_exists(stats, (upto - 1) as nat);
        let before = stats.take(upto - 1);
        assert forall|i: int| 0 <= i < upto - 1 implies #[trigger] part[i] == before[i] by {}
        let last = upto - 1;
        if last % 2 == 0 && part[last].score_spec() >= part[b].score_spec() {
            last
        } else {
            b
        }
    }
}

/// The offset that is taken was seen: an offset at which no packet held a whole block is
/// never taken. It is even, and it scores at least as high as every other even offset.
pub proof fn law_decision_was_seen(stats: Seq<LayoutStats>, packets: nat, elapsed_ns: u128)
    requires
        watched(stats, packets),
        stats.len() <= usize::MAX,
    ensures
        decision(stats, elapsed_ns) matches Some(best) ==> {
            &&& best < stats.len()
            &&& best % 2 == 0
            &&& stats[best as int].samples > 0
            &&& forall|i: int|
                0 <= i < stats.len() && i % 2 == 0 ==> (#[trigger] stats[i]).score_spec()
                    <= stats[best as int].score_spec()
        },
{
    if watched_enough(stats, elapsed_ns) {
        let seen = lemma_most_samples(stats);
        assert(stats[seen].samples >= LAYOUT_MIN_SAMPLES);
        let b = lemma_best_exists(stats, stats.len());
        assert(stats.take(stats.len() as int) =~= stats);
        lemma_best_unique(stats, b);
        assert(stats[seen].consistent());
        assert(stats[b].consistent());
        law_score_range(stats[seen]);
        law_score_range(stats[b]);
        assert(seen % 2 == 0);
        assert(stats[seen].score_spec() <= stats[b].score_spec());
    }
}

/// An offset is taken if and only if two seconds have passed and 120 packets held a block at
/// one offset. Once it is taken it would be taken at every later time, and it would be the
/// same one.
pub proof fn law_decision_is_due(stats: Seq<LayoutStats>, elapsed_ns: u128, later_ns: u128)
    ensures
        decision(stats, elapsed_ns) is Some <==> elapsed_ns >= 2_000_000_000 && (exists|i: int|
            0 <= i < stats.len() && (#[trigger] stats[i]).samples >= 120),
        decision(stats, elapsed_ns) is Some && elapsed_ns <= later_ns ==> decision(stats, later_ns)
            == decision(stats, elapsed_ns),
{
    law_most_samples(stats);
    if most_samples(stats) >= 120 {
        let i = lemma_most_samples(stats);
        assert(stats[i].samples >= 120);
    }
}

/// The largest number of samples is reached at an offset, if there is one, and at none it is
/// exceeded.
pub proof fn law_most_samples(stats: Seq<LayoutStats>)
    ensures
        forall|i: int|
            0 <= i < stats.len() ==> (#[trigger] stats[i]).samples <= most_samples(stats),
        most_samples(stats) > 0 ==> exists|i: int|
            0 <= i < stats.len() && (#[trigger] stats[i]).samples == most_samples(stats),
    decreases stats.len(),
{
    if stats.len() > 0 {
        let rest = stats.drop_last();
        law_most_samples(rest);
        assert forall|i: int| 0 <= i < stats.len() implies (#[trigger] stats[i]).samples
            <= most_samples(stats) by {
            if i < rest.len() {
                assert(rest[i] == stats[i]);
            }
        }
    }
    if most_samples(stats) > 0 {
        let i = lemma_most_samples(stats);
        assert(stats[i].samples == most_samples(stats));
    }
}

/// The best offset is even, no even one scores higher, and every even one behind it scores
/// less. There is exactly one as soon as an offset is watched, and it is the one that is
/// taken.
pub proof fn law_best_offset(stats: Seq<LayoutStats>, best: int, elapsed_ns: u128)
    requires
        0 < stats.len() <= usize::MAX,
    ensures
        is_best(stats, best) <==> {
            &&& 0 <= best < stats.len()
            &&& best % 2 == 0
            &&& forall|i: int|
                0 <= i < stats.len() && i % 2 == 0 ==> (#[trigger] stats[i]).score_spec()
                    <= stats[best].score_spec()
            &&& forall|i: int|
                best < i < stats.len() && i % 2 == 0 ==> (#[trigger] stats[i]).score_spec()
                    < stats[best].score_spec()
        },
        exists|b: int| is_best(stats, b),
        decision(stats, elapsed_ns) matches Some(taken) ==> is_best(stats, taken as int),
{
    let b = lemma_best_exists(stats, stats.len());
    assert(stats.take(stats.len() as int) =~= stats);
    assert(is_best(stats, b));
    lemma_best_unique(stats, b);
}

/// The number of ones of a word is the sum of its sixteen binary digits.
pub proof fn law_ones(w: u16)
    ensures
        ones(w as nat) == w % 2 + w / 2 % 2 + w / 4 % 2 + w / 8 % 2 + w / 16 % 2 + w / 32 % 2 + w
            / 64 % 2 + w / 128 % 2 + w / 256 % 2 + w / 512 % 2 + w / 1024 % 2 + w / 2048 % 2 + w
            / 4096 % 2 + w / 8192 % 2 + w / 16384 % 2 + w / 32768 % 2,
{
    let n = w as nat;
    lemma_four_ones(n);
    lemma_four_ones(n / 16);
    lemma_four_ones(n / 256);
    lemma_four_ones(n / 4096);
    assert(n / 16 / 16 == n / 256);
    assert(n / 256 / 16 == n / 4096);
    assert(n / 4096 / 16 == 0);
    assert(ones(0) == 0);
    assert(n / 16 / 2 == n / 32 && n / 16 / 4 == n / 64 && n / 16 / 8 == n / 128);
    assert(n / 256 / 2 == n / 512 && n / 256 / 4 == n / 1024 && n / 256 / 8 == n / 2048);
    assert(n / 4096 / 2 == n / 8192 && n / 4096 / 4 == n / 16384 && n / 4096 / 8 == n / 32768);
}

proof fn lemma_four_ones(n: nat)
    ensures
        ones(n) == n % 2 + n / 2 % 2 + n / 4 % 2 + n / 8 % 2 + ones(n / 16),
{
    lemma_ones_step(n);
    lemma_ones_step(n / 2);
    lemma_ones_step(n / 4);
    lemma_ones_step(n / 8);
    assert(n / 2 / 2 == n / 4);
    assert(n / 4 / 2 == n / 8);
    assert(n / 8 / 2 == n / 16);
}

proof fn lemma_ones_step(n: nat)
    ensures
        ones(n) == n % 2 + ones(n / 2),
{
    if n == 0 {
        assert(ones(0) == 0);
    }
}

/// What a sample counts for, in terms of its words: every sample for one sample; for
/// triggers that fit ten bits, both below 1024; for a pressed trigger, one above 4 in its
/// lower ten bits; for calm axes, none at either end; for a moved axis, one more than 512
/// from zero; for a change, other buttons than in the sample before; and for the buttons
/// held.
pub proof fn law_sample_counts(stats: LayoutStats, raw: RawInput)
    requires
        stats.has_room(raw),
    ensures
        ({
            let next = stats.after(raw);
            let fit = raw.lt < 1024 && raw.rt < 1024;
            let pulled = raw.lt % 1024 > 4 || raw.rt % 1024 > 4;
            let calm = -32768 < raw.lx < 32767 && -32768 < raw.ly < 32767 && -32768 < raw.rx < 32767
                && -32768 < raw.ry < 32767;
            let moved = !(-512 <= raw.lx <= 512 && -512 <= raw.ly <= 512 && -512 <= raw.rx <= 512
                && -512 <= raw.ry <= 512);
            let changed = stats.last_buttons is Some && stats.last_buttons != Some(raw.buttons);
            &&& next.samples == stats.samples + 1
            &&& fit ==> next.trig_hi_zero == stats.trig_hi_zero + 1
            &&& !fit ==> next.trig_hi_zero == stats.trig_hi_zero
            &&& pulled ==> next.trig_activity == stats.trig_activity + 1
            &&& !pulled ==> next.trig_activity == stats.trig_activity
            &&& calm ==> next.axes_non_extreme == stats.axes_non_extreme + 1
            &&& !calm ==> next.axes_non_extreme == stats.axes_non_extreme
            &&& moved ==> next.axes_activity == stats.axes_activity + 1
            &&& !moved ==> next.axes_activity == stats.axes_activity
            &&& changed ==> next.buttons_change_count == stats.buttons_change_count + 1
            &&& !changed ==> next.buttons_change_count == stats.buttons_change_count
            &&& next.buttons_popcount_sum == stats.buttons_popcount_sum + ones(raw.buttons as nat)
            &&& next.last_buttons == Some(raw.buttons)
        }),
{
}

/// There is room for a sample as long as no counter is full and the held buttons have
/// sixteen to spare; there is none once the number of samples is full.
pub proof fn law_room_for_a_sample(stats: LayoutStats, raw: RawInput)
    ensures
        stats.samples < u32::MAX && stats.trig_hi_zero < u32::MAX && stats.trig_activity < u32::MAX
            && stats.axes_non_extreme < u32::MAX && stats.axes_activity < u32::MAX
            && stats.buttons_change_count < u32::MAX && stats.buttons_popcount_sum <= u32::MAX - 16
            ==> stats.has_room(raw),
        stats.samples == u32::MAX ==> !stats.has_room(raw),
        stats.has_room(raw) ==> stats.buttons_popcount_sum + ones(raw.buttons as nat) <= u32::MAX,
{
    vstd::arithmetic::power2::lemma2_to64();
    lemma_ones_bound(raw.buttons as nat, 16);
}

/// Counting at an offset counts the fourteen bytes there, and nothing where the payload ends
/// before them.
pub proof fn law_block_is_counted(stats: LayoutStats, payload: Seq<u8>, off: nat)
    ensures
        off + 14 <= payload.len() ==> stats.after_block(payload, off as int) == stats.after(
            RawInput::of(payload.subrange(off as int, off as int + 14)),
        ),
        off + 14 <= payload.len() ==> (stats.room_at(payload, off as int) <==> stats.has_room(
            RawInput::of(payload.subrange(off as int, off as int + 14)),
        )),
        payload.len() < off + 14 ==> stats.after_block(payload, off as int) == stats
            && stats.room_at(payload, off as int),
{
}

/// A payload is counted at every even offset at which it holds fourteen bytes, and at no
/// other; an offset that was not watched before starts from nothing. All offsets up to the
/// last one that leaves fourteen bytes are watched from then on, at least the first.
pub proof fn law_payload_is_counted(stats: Seq<LayoutStats>, payload: Seq<u8>, i: int)
    ensures
        ({
            let next = all_after(stats, payload);
            let was = if i < stats.len() {
                stats[i]
            } else {
                LayoutStats::fresh()
            };
            &&& next.len() >= stats.len() && next.len() >= 1 && next.len() >= payload.len() - 13
            &&& next.len() == stats.len() || next.len() == 1 || next.len() == payload.len() - 13
            &&& 0 <= i < next.len() && i % 2 == 0 && i + 14 <= payload.len() ==> next[i]
                == was.after(RawInput::of(payload.subrange(i, i + 14)))
            &&& 0 <= i < next.len() && !(i % 2 == 0 && i + 14 <= payload.len()) ==> next[i] == was
        }),
{
}

/// Nothing was seen at a fresh offset.
pub proof fn law_fresh_offset()
    ensures
        ({
            let s = LayoutStats::fresh();
            s.samples == 0 && s.trig_hi_zero == 0 && s.trig_activity == 0 && s.axes_non_extreme == 0
                && s.axes_activity == 0 && s.buttons_change_count == 0 && s.buttons_popcount_sum
                == 0 && s.last_buttons is None
        }),
{
}

/// A payload can be counted if and only if there is room for its block at every even offset
/// at which it holds fourteen bytes.
pub proof fn law_room_for_a_payload(stats: Seq<LayoutStats>, payload: Seq<u8>)
    ensures
        room_for(stats, payload) <==> forall|i: int|
            0 <= i && i + 14 <= payload.len() && i % 2 == 0 ==> (if i < stats.len() {
                stats[i]
            } else {
                LayoutStats::fresh()
            }).has_room(RawInput::of(#[trigger] payload.subrange(i, i + 14))),
{
    assert forall|i: int| sampled(payload, i) <==> 0 <= i && i + 14 <= payload.len() && i % 2
        == 0 by {}
    if room_for(stats, payload) {
        assert forall|i: int| 0 <= i && i + 14 <= payload.len() && i % 2 == 0 implies (if i
            < stats.len() {
            stats[i]
        } else {
            LayoutStats::fresh()
        }).has_room(RawInput::of(#[trigger] payload.subrange(i, i + 14))) by {
            assert(sampled(payload, i));
        }
    } else {
        let i = choose|i: int|
            #[trigger]
            sampled(payload, i) && !stats_at(stats, i).has_room(block_at(payload, i));
        assert(payload.subrange(i, i + 14) == payload.subrange(i, i + 14));
        assert(!stats_at(stats, i).has_room(RawInput::of(payload.subrange(i, i + 14))));
    }
}

/// Exactly when there is room for a sample: every counter that the sample adds to stays
/// within its range.
pub proof fn law_room_is_exact(stats: LayoutStats, raw: RawInput)
    ensures
        stats.has_room(raw) <==> {
            &&& stats.samples < u32::MAX
            &&& raw.lt < 1024 && raw.rt < 1024 ==> stats.trig_hi_zero < u32::MAX
            &&& raw.lt % 1024 > 4 || raw.rt % 1024 > 4 ==> stats.trig_activity < u32::MAX
            &&& -32768 < raw.lx < 32767 && -32768 < raw.ly < 32767 && -32768 < raw.rx < 32767
                && -32768 < raw.ry < 32767 ==> stats.axes_non_extreme < u32::MAX
            &&& !(-512 <= raw.lx <= 512 && -512 <= raw.ly <= 512 && -512 <= raw.rx <= 512 && -512
                <= raw.ry <= 512) ==> stats.axes_activity < u32::MAX
            &&& stats.last_buttons is Some && stats.last_buttons != Some(raw.buttons)
                ==> stats.buttons_change_count < u32::MAX
            &&& stats.buttons_popcount_sum + ones(raw.buttons as nat) <= u32::MAX
        },
{
}

} // verus!
