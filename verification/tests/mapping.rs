//! Packets as the state of a pad, against machine arithmetic.
use xbox_controller_macos_gip::binary32::Binary32;
use xbox_controller_macos_gip::mapping::{
    apply_radial_deadzone, clamp01, clamp11, norm_i16_to_f1, norm_trig10_to_01, parsed_to_dolphin,
    radius, DolphinState, StickCalibration, CALIBRATION_MAX_RADIUS_BITS, CALIBRATION_WINDOW_NS,
    HALF_BITS, MINUS_ONE_BITS, STICK_DEADZONE_BITS,
};
use xbox_controller_macos_gip::packet::ParsedInput;

fn b(v: f32) -> Binary32 {
    Binary32::from_bits(v.to_bits())
}

fn f(v: Binary32) -> f32 {
    f32::from_bits(v.to_bits())
}

struct Source(u64);

impl Source {
    fn next(&mut self) -> u32 {
        self.0 ^= self.0 << 13;
        self.0 ^= self.0 >> 7;
        self.0 ^= self.0 << 17;
        (self.0 >> 16) as u32
    }

    /// An axis value: anywhere, near the centre or at an edge.
    fn axis(&mut self) -> i16 {
        let v = self.next();
        match v % 5 {
            0 => (v >> 8) as i16,
            1 => ((v >> 8) as i16) / 8,
            2 => ((v >> 8) as i16) / 4,
            3 => [0, 1, -1, i16::MIN, i16::MAX, -32767, 3932, -3932][(v >> 8) as usize % 8],
            _ => ((v >> 8) as i16) / 512,
        }
    }
}

fn m_clamp01(v: f32) -> f32 {
    if v.is_nan() || v < 0.0 {
        0.0
    } else if v > 1.0 {
        1.0
    } else {
        v
    }
}

fn m_clamp11(v: f32) -> f32 {
    if v.is_nan() {
        0.0
    } else if v < -1.0 {
        -1.0
    } else if v > 1.0 {
        1.0
    } else {
        v
    }
}

fn m_axis(v: i16) -> f32 {
    if v == i16::MIN {
        -1.0
    } else {
        v as f32 / 32767.0
    }
}

fn m_deadzone(x: f32, y: f32, dz: f32) -> (f32, f32) {
    let r = (x * x + y * y).sqrt();
    if r <= dz {
        return (0.0, 0.0);
    }
    let k = (r - dz) / (1.0 - dz);
    let s = if r > 0.0 { k / r } else { 0.0 };
    (m_clamp11(x * s), m_clamp11(y * s))
}

/// A stick as the pipe's pair of values.
fn m_stick(x: i16, y: i16, x0: f32, y0: f32) -> (f32, f32) {
    let (x, y) = m_deadzone(m_clamp11(m_axis(x) - x0), m_clamp11(m_axis(y) - y0), 0.12);
    (m_clamp01((x + 1.0) * 0.5), m_clamp01(((-y) + 1.0) * 0.5))
}

fn pad(buttons: u16) -> DolphinState {
    let p = ParsedInput { buttons, ..ParsedInput::default() };
    parsed_to_dolphin(p, StickCalibration::default())
}

#[test]
fn mapping_constants() {
    assert_eq!(STICK_DEADZONE_BITS, 0.12f32.to_bits());
    assert_eq!(CALIBRATION_MAX_RADIUS_BITS, 0.25f32.to_bits());
    assert_eq!(HALF_BITS, 0.5f32.to_bits());
    assert_eq!(MINUS_ONE_BITS, (-1.0f32).to_bits());
    assert_eq!(CALIBRATION_WINDOW_NS, std::time::Duration::from_millis(750).as_nanos());
}

#[test]
fn clamps_match_the_machine() {
    let mut all = vec![
        0.0, -0.0, 0.5, -0.5, 1.0, -1.0, 1.0000001, -1.0000001, 2.0, -2.0, f32::MAX, f32::MIN,
        f32::INFINITY, f32::NEG_INFINITY, f32::NAN, f32::MIN_POSITIVE, -1.0e-45, 1.0e-45,
    ];
    let mut s = Source(7);
    for _ in 0..2000 {
        all.push(f32::from_bits(s.next()));
    }
    for v in all {
        assert_eq!(clamp01(b(v)).to_bits(), m_clamp01(v).to_bits(), "{v}");
        assert_eq!(clamp11(b(v)).to_bits(), m_clamp11(v).to_bits(), "{v}");
        assert_eq!(clamp01(clamp01(b(v))), clamp01(b(v)));
        assert_eq!(clamp11(clamp11(b(v))), clamp11(b(v)));
    }
}

#[test]
fn axes_match_the_machine() {
    for v in (i16::MIN..=i16::MAX).step_by(7).chain([i16::MAX, -1, 0, 1]) {
        assert_eq!(norm_i16_to_f1(v).to_bits(), m_axis(v).to_bits(), "{v}");
    }
    assert_eq!(f(norm_i16_to_f1(i16::MIN)), -1.0);
    assert_eq!(f(norm_i16_to_f1(-32767)), -1.0);
    assert_eq!(f(norm_i16_to_f1(i16::MAX)), 1.0);
    assert_eq!(f(norm_i16_to_f1(0)), 0.0);
    assert_eq!(f(norm_i16_to_f1(123)), -f(norm_i16_to_f1(-123)));
}

#[test]
fn triggers_match_the_machine() {
    let mut last = -1.0;
    for v in 0..=1023u16 {
        let got = f(norm_trig10_to_01(v));
        assert_eq!(got.to_bits(), (v as f32 / 1023.0).to_bits());
        assert!(got > last);
        last = got;
    }
    assert_eq!(f(norm_trig10_to_01(0)), 0.0);
    for v in [1023, 1024, u16::MAX] {
        assert_eq!(f(norm_trig10_to_01(v)), 1.0);
    }
}

#[test]
fn deadzone_matches_the_machine() {
    let mut s = Source(11);
    for i in 0..3000 {
        let (x, y) = if i % 3 == 0 {
            (f32::from_bits(s.next()), f32::from_bits(s.next()))
        } else {
            (m_axis(s.axis()), m_axis(s.axis()))
        };
        let dz = [0.12f32, 0.0, 0.5, 1.0, 2.0, -0.25, f32::NAN][i % 7];
        let (gx, gy) = apply_radial_deadzone(b(x), b(y), b(dz));
        let (mx, my) = m_deadzone(x, y, dz);
        assert_eq!((gx.to_bits(), gy.to_bits()), (mx.to_bits(), my.to_bits()), "{x} {y} {dz}");
    }
}

#[test]
fn deadzone_ends() {
    let dz = b(0.12);
    assert_eq!(apply_radial_deadzone(b(0.12), b(0.0), dz), (b(0.0), b(0.0)));
    assert_eq!(apply_radial_deadzone(b(0.05), b(-0.1), dz), (b(0.0), b(0.0)));
    assert_eq!(apply_radial_deadzone(b(1.0), b(0.0), dz), (b(1.0), b(0.0)));
    assert_eq!(apply_radial_deadzone(b(-1.0), b(0.0), dz), (b(-1.0), b(0.0)));
    let (x, y) = apply_radial_deadzone(b(0.5), b(0.0), b(0.0));
    assert_eq!((f(x), f(y)), (0.5, 0.0));
    assert_eq!(f(radius(b(3.0), b(-4.0))), 5.0);
}

#[test]
fn axes_keep_their_order() {
    let mut last = f(norm_i16_to_f1(i16::MIN));
    for v in (-32767..=32767i16).step_by(3) {
        let got = f(norm_i16_to_f1(v));
        assert!(got >= last);
        last = got;
    }
}

#[test]
fn trigger_ends_are_only_at_the_ends() {
    assert!(f(norm_trig10_to_01(1)) > 0.0);
    assert!(f(norm_trig10_to_01(1022)) < 1.0);
}

#[test]
fn deadzone_keeps_sides_and_symmetry() {
    let mut s = Source(19);
    for i in 0..2000 {
        let (x, y) = if i % 4 == 0 {
            (f32::from_bits(s.next()), f32::from_bits(s.next()))
        } else {
            (m_axis(s.axis()), m_axis(s.axis()))
        };
        let dz = [0.12f32, 0.0, 0.5, 1.0, -3.0, f32::NAN][i % 6];
        let (px, py) = apply_radial_deadzone(b(x), b(y), b(dz));
        if !x.is_nan() {
            assert!(f(px) * x.signum() >= 0.0 && (x != 0.0 || f(px) == 0.0), "{x} {y} {dz}");
        }
        assert_eq!(apply_radial_deadzone(b(y), b(x), b(dz)), (py, px));
        let (qx, qy) = apply_radial_deadzone(b(-x), b(y), b(dz));
        assert_eq!((f(qx), qy), (-f(px), py));
        let (qx, qy) = apply_radial_deadzone(b(x), b(-y), b(dz));
        assert_eq!((qx, f(qy)), (px, -f(py)));
    }
    let (px, _) = apply_radial_deadzone(b(3.0), b(0.0), b(2.0));
    assert_eq!(f(px), -1.0);
}

#[test]
fn deadzone_rescales_from_its_edge() {
    let mut s = Source(23);
    for i in 0..3000 {
        let (x, y) = (m_axis(s.axis()), m_axis(s.axis()));
        let dz = [0.12f32, 0.0, 0.5, 0.9, 1.0e-30, 0.99999994][i % 6];
        let r = f(radius(b(x), b(y))) as f64;
        let exact = (x as f64).hypot(y as f64);
        assert!((r * r - exact * exact).abs() <= exact * exact / 1048576.0 + 1e-40);
        if r <= dz as f64 {
            continue;
        }
        let (px, py) = apply_radial_deadzone(b(x), b(y), b(dz));
        let scale = (r - dz as f64) / (r * (1.0 - dz as f64));
        for (v, p) in [(x as f64, f(px) as f64), (y as f64, f(py) as f64)] {
            let want = (v * scale).clamp(-1.0, 1.0);
            assert!((p - want).abs() <= want.abs() / 1048576.0 + 1e-40, "{x} {y} {dz}");
        }
        if r <= 1.0 {
            let length = (r - dz as f64) / (1.0 - dz as f64);
            let got = (f(px) as f64).hypot(f(py) as f64);
            assert!((got * got - length * length).abs() <= length * length / 131072.0 + 1e-40);
        }
    }
    let (px, py) = apply_radial_deadzone(b(0.56), b(0.0), b(0.12));
    assert!((f(px) - 0.5).abs() < 1e-6 && f(py) == 0.0);
}

#[test]
fn pads_match_the_machine() {
    let mut s = Source(13);
    for i in 0..3000u32 {
        let p = ParsedInput {
            buttons: s.next() as u16,
            lt10: s.next() as u16 & 0x3FF,
            rt10: s.next() as u16,
            lx: s.axis(),
            ly: s.axis(),
            rx: s.axis(),
            ry: s.axis(),
        };
        let c = if i % 2 == 0 {
            [0.0; 4]
        } else {
            [m_axis(s.axis()), m_axis(s.axis()) / 4.0, m_axis(s.axis()) / 64.0, 0.0]
        };
        let cal = StickCalibration { lx0: b(c[0]), ly0: b(c[1]), rx0: b(c[2]), ry0: b(c[3]), n: 1 };
        let got = parsed_to_dolphin(p, cal);
        let main = m_stick(p.lx, p.ly, c[0], c[1]);
        let right = m_stick(p.rx, p.ry, c[2], c[3]);
        assert_eq!((got.main_x, got.main_y), (b(main.0), b(main.1)), "{p:?} {c:?}");
        assert_eq!((got.c_x, got.c_y), (b(right.0), b(right.1)), "{p:?} {c:?}");
        assert_eq!(got.l, b(p.lt10 as f32 / 1023.0));
        assert_eq!(got.r, b(p.rt10.min(1023) as f32 / 1023.0));
        for v in [got.main_x, got.main_y, got.c_x, got.c_y, got.l, got.r] {
            assert!((0.0..=1.0).contains(&f(v)));
        }
    }
}

#[test]
fn buttons_are_mapped() {
    let none = pad(0);
    assert_eq!(pad(0x0004), DolphinState { start: true, ..none });
    assert_eq!(pad(0x0008), DolphinState { z: true, ..none });
    assert_eq!(pad(0x0010), DolphinState { a: true, ..none });
    assert_eq!(pad(0x0020), DolphinState { b: true, ..none });
    assert_eq!(pad(0x0040), DolphinState { x: true, ..none });
    assert_eq!(pad(0x0080), DolphinState { y: true, ..none });
    assert_eq!(pad(0x0100), DolphinState { d_up: true, ..none });
    assert_eq!(pad(0x0200), DolphinState { d_down: true, ..none });
    assert_eq!(pad(0x0400), DolphinState { d_left: true, ..none });
    assert_eq!(pad(0x0800), DolphinState { d_right: true, ..none });
}

#[test]
fn other_buttons_are_not_mapped() {
    assert_eq!(pad(0xF003), pad(0));
    assert_eq!(pad(0xFFFF), pad(0x0FFC));
}

#[test]
fn resting_sticks_are_centred() {
    let rest = pad(0);
    for v in [rest.main_x, rest.main_y, rest.c_x, rest.c_y] {
        assert_eq!(f(v), 0.5);
    }
    assert_eq!((f(rest.l), f(rest.r)), (0.0, 0.0));
    assert_eq!(DolphinState::default().main_x, b(0.0));
    let drifted = ParsedInput { lx: 3000, ly: -2000, rx: 1500, ry: 900, ..ParsedInput::default() };
    let got = parsed_to_dolphin(drifted, StickCalibration::default());
    for v in [got.main_x, got.main_y, got.c_x, got.c_y] {
        assert_eq!(f(v), 0.5);
    }
}

#[test]
fn up_is_larger() {
    let p = ParsedInput { ly: -32767, ry: 32767, lx: 0, rx: 0, ..ParsedInput::default() };
    let got = parsed_to_dolphin(p, StickCalibration::default());
    assert_eq!((f(got.main_y), f(got.c_y)), (1.0, 0.0));
}

#[test]
fn centres_match_the_machine() {
    let mut s = Source(17);
    let mut cal = StickCalibration::default();
    let (mut c, mut n) = ([0.0f32; 4], 0u32);
    for _ in 0..2000 {
        let axes = [s.axis() / 2, s.axis() / 2, s.axis() / 2, s.axis() / 2];
        let p = ParsedInput { lx: axes[0], ly: axes[1], rx: axes[2], ry: axes[3], ..ParsedInput::default() };
        cal.learn(p);
        let a = axes.map(m_axis);
        let near = |x: f32, y: f32| (x * x + y * y).sqrt() <= 0.25;
        if near(a[0], a[1]) && near(a[2], a[3]) {
            n += 1;
            for k in 0..4 {
                c[k] += (a[k] - c[k]) / n as f32;
            }
        }
        assert_eq!(cal, StickCalibration { lx0: b(c[0]), ly0: b(c[1]), rx0: b(c[2]), ry0: b(c[3]), n });
    }
    assert!(n > 100 && n < 2000);
}

#[test]
fn first_centre_is_the_sample() {
    let p = ParsedInput { lx: 800, ly: -700, rx: 600, ry: -500, ..ParsedInput::default() };
    let mut cal = StickCalibration::default();
    cal.learn(p);
    assert_eq!((cal.lx0, cal.ry0, cal.n), (b(m_axis(800)), b(m_axis(-500)), 1));
    let far = ParsedInput { lx: 20000, ..p };
    let before = cal;
    cal.learn(far);
    assert_eq!(cal, before);
    cal.n = u32::MAX;
    cal.learn(p);
    assert_eq!(cal.n, u32::MAX);
}
