//! The integer arithmetic on binary32 numbers against the machine's.
use xbox_controller_macos_gip::binary32::Binary32;

struct Source(u64);

impl Source {
    fn next(&mut self) -> u32 {
        self.0 ^= self.0 << 13;
        self.0 ^= self.0 >> 7;
        self.0 ^= self.0 << 17;
        (self.0 >> 16) as u32
    }
}

/// Bit patterns at the edges of the format.
fn edges() -> Vec<u32> {
    let mut all = vec![
        0x0000_0000,
        0x0000_0001,
        0x0000_0002,
        0x007F_FFFF,
        0x0080_0000,
        0x0080_0001,
        0x00FF_FFFF,
        0x0100_0000,
        0x3EFF_FFFF,
        0x3F00_0000,
        0x3F00_0001,
        0x3F7F_FFFF,
        0x3F80_0000,
        0x3F80_0001,
        0x4000_0000,
        0x4B7F_FFFF,
        0x4B80_0000,
        0x4B80_0001,
        0x4F00_0000,
        0x7F00_0000,
        0x7F7F_FFFF,
        0x7F80_0000,
        0x7F80_0001,
        0x7FC0_0000,
        0x7FFF_FFFF,
    ];
    let negative: Vec<u32> = all.iter().map(|b| b | 0x8000_0000).collect();
    all.extend(negative);
    all
}

fn pairs() -> Vec<(u32, u32)> {
    let edges = edges();
    let mut out = Vec::new();
    for &a in &edges {
        for &b in &edges {
            out.push((a, b));
        }
    }
    let mut source = Source(0x9E37_79B9_7F4A_7C15);
    for _ in 0..20_000 {
        out.push((source.next(), source.next()));
    }
    // Numbers of similar size, where sums cancel and round in every way.
    for _ in 0..20_000 {
        let a = source.next();
        let shift = source.next() % 60;
        let exponent = ((a >> 23) & 0xFF).saturating_sub(30).saturating_add(shift).min(254);
        let b = (source.next() & 0x807F_FFFF) | (exponent << 23);
        out.push((a, b));
    }
    out
}

fn agree(ours: Binary32, machine: f32) -> bool {
    if machine.is_nan() {
        ours.is_nan()
    } else {
        ours.to_bits() == machine.to_bits()
    }
}

fn b(bits: u32) -> Binary32 {
    Binary32::from_bits(bits)
}

#[test]
fn sums_and_differences_match_the_machine() {
    for (x, y) in pairs() {
        let (fx, fy) = (f32::from_bits(x), f32::from_bits(y));
        assert!(agree(b(x).plus(b(y)), fx + fy), "{x:08X} + {y:08X}");
        assert!(agree(b(x).minus(b(y)), fx - fy), "{x:08X} - {y:08X}");
    }
}

#[test]
fn products_match_the_machine() {
    for (x, y) in pairs() {
        let (fx, fy) = (f32::from_bits(x), f32::from_bits(y));
        assert!(agree(b(x).times(b(y)), fx * fy), "{x:08X} * {y:08X}");
    }
}

#[test]
fn quotients_match_the_machine() {
    for (x, y) in pairs() {
        let (fx, fy) = (f32::from_bits(x), f32::from_bits(y));
        assert!(agree(b(x).over(b(y)), fx / fy), "{x:08X} / {y:08X}");
    }
}

#[test]
fn square_roots_match_the_machine() {
    for (x, y) in pairs() {
        for bits in [x, y] {
            let f = f32::from_bits(bits);
            assert!(agree(b(bits).square_root(), f.sqrt()), "sqrt {bits:08X}");
        }
    }
}

#[test]
fn comparisons_match_the_machine() {
    for (x, y) in pairs() {
        let (fx, fy) = (f32::from_bits(x), f32::from_bits(y));
        assert_eq!(b(x).less(b(y)), fx < fy, "{x:08X} < {y:08X}");
        assert_eq!(b(x).at_most(b(y)), fx <= fy, "{x:08X} <= {y:08X}");
        assert_eq!(b(x).is_nan(), fx.is_nan());
    }
}

#[test]
fn signs_match_the_machine() {
    for (x, _) in pairs() {
        let f = f32::from_bits(x);
        assert!(agree(b(x).negated(), -f));
        assert!(agree(b(x).absolute(), f.abs()));
    }
}

#[test]
fn whole_parts_match_the_machine() {
    for (x, y) in pairs() {
        for bits in [x, y] {
            let f = f32::from_bits(bits);
            assert_eq!(b(bits).truncated(), f as i32, "{bits:08X}");
        }
    }
    for n in [0.99f32, -0.99, 1.0, -1.5, 2147483520.0, 2147483648.0, -2147483648.0, -2147483904.0] {
        assert_eq!(b(n.to_bits()).truncated(), n as i32);
    }
}

#[test]
fn whole_numbers_match_the_machine() {
    let mut source = Source(0xD1B5_4A32_D192_ED03);
    for n in [0u32, 1, 2, 3, 1023, 32767, 16777215, 16777216, 16777217, 16777219, u32::MAX] {
        assert_eq!(Binary32::from_int(n as i64).to_bits(), (n as f32).to_bits());
        assert_eq!(Binary32::from_int(-(n as i64)).to_bits() & 0x7FFF_FFFF, (n as f32).to_bits());
    }
    for _ in 0..20_000 {
        let n = source.next() >> (source.next() % 32);
        assert_eq!(Binary32::from_int(n as i64).to_bits(), (n as f32).to_bits());
    }
    for v in i16::MIN..=i16::MAX {
        assert_eq!(Binary32::from_int(v as i64).to_bits(), (v as f32).to_bits());
    }
}
