//! The numbers behave bit for bit like the machine's own.
use chart_view::float::double::Double;
use chart_view::float::single::Single;

struct Source(u64);

impl Source {
    fn next(&mut self) -> u64 {
        self.0 ^= self.0 << 13;
        self.0 ^= self.0 >> 7;
        self.0 ^= self.0 << 17;
        self.0
    }

    /// A pattern, with the interesting exponents made likely.
    fn single(&mut self) -> f32 {
        let r = self.next();
        let bits = match r % 8 {
            0 => (r >> 32) as u32,
            1 => ((r >> 32) as u32) & 0x807f_ffff,
            2 => (((r >> 32) as u32) & 0x80ff_ffff) | 0x3f00_0000,
            3 => (((r >> 32) as u32) & 0x83ff_ffff) | 0x4000_0000,
            4 => (((r >> 32) as u32) & 0x8000_000f) | 0x3f80_0000,
            5 => [
                0u32, 0x8000_0000, 0x3f80_0000, 0xbf80_0000, 0x7f80_0000, 0xff80_0000, 0x7fc0_0000, 1,
                0x007f_ffff, 0x0080_0000, 0x7f7f_ffff, 0x3f00_0000, 0xbf00_0000, 0x4b00_0000, 0x4b80_0000,
                0x8000_0001,
            ][((r >> 32) % 16) as usize],
            6 => (((r >> 32) % 4096) as f32 / 8.0).to_bits() ^ (((r >> 50) as u32 & 1) << 31),
            _ => ((r >> 32) as u32) & 0xffff_f000,
        };
        f32::from_bits(bits)
    }

    fn double(&mut self) -> f64 {
        let r = self.next();
        let q = self.next();
        let bits = match r % 6 {
            0 => q,
            1 => q & 0x800f_ffff_ffff_ffff,
            2 => (q & 0x801f_ffff_ffff_ffff) | 0x3fe0_0000_0000_0000,
            3 => (q & 0x80ff_ffff_ffff_ffff) | 0x3f00_0000_0000_0000,
            4 => ((q % 8192) as f64 / 4.0).to_bits(),
            _ => q & 0xffff_ffff_0000_0000,
        };
        f64::from_bits(bits)
    }
}

fn s(x: f32) -> Single {
    Single { bits: x.to_bits() }
}

fn d(x: f64) -> Double {
    Double { bits: x.to_bits() }
}

/// The two patterns are the same, or both are not a number.
fn same(r: Single, x: f32) -> bool {
    (x.is_nan() && f32::from_bits(r.bits).is_nan()) || r.bits == x.to_bits()
}

fn same_double(r: Double, x: f64) -> bool {
    (x.is_nan() && f64::from_bits(r.bits).is_nan()) || r.bits == x.to_bits()
}

#[test]
fn single_arithmetic_is_the_machines() {
    let mut source = Source(0x9e37_79b9_7f4a_7c15);
    for _ in 0..200_000 {
        let (a, b) = (source.single(), source.single());
        assert!(same(s(a).plus(s(b)), a + b), "{a:e} + {b:e}");
        assert!(same(s(a).minus(s(b)), a - b), "{a:e} - {b:e}");
        assert!(same(s(a).times(s(b)), a * b), "{a:e} * {b:e}");
        assert!(same(s(a).over(s(b)), a / b), "{a:e} / {b:e}");
    }
}

#[test]
fn single_order_is_the_machines() {
    let mut source = Source(0x1234_5678_9abc_def1);
    for _ in 0..200_000 {
        let (a, b) = (source.single(), source.single());
        assert_eq!(s(a).lt(s(b)), a < b);
        assert_eq!(s(a).gt(s(b)), a > b);
        assert_eq!(s(a).le(s(b)), a <= b);
        assert_eq!(s(a).ge(s(b)), a >= b);
        assert_eq!(s(a).equals(s(b)), a == b);
        assert!(s(a).max(s(b)).equals(s(a.max(b))) || (a.is_nan() && b.is_nan()));
        assert!(a == 0.0 || b == 0.0 || same(s(a).max(s(b)), a.max(b)));
        if a <= b {
            let x = source.single();
            assert!(same(s(x).clamp(s(a), s(b)), x.clamp(a, b)));
        }
    }
}

#[test]
fn single_functions_are_the_machines() {
    let mut source = Source(0x0dd0_beef_cafe_f00d);
    for _ in 0..200_000 {
        let a = source.single();
        assert!(same(s(a).round(), a.round()), "round {a:e}");
        assert!(same(s(a).ceil(), a.ceil()), "ceil {a:e}");
        assert!(same(s(a).neg(), -a));
        assert!(same(s(a).abs(), a.abs()));
        assert!(same(s(a).signum(), a.signum()));
        assert_eq!(s(a).is_nan(), a.is_nan());
        assert_eq!(s(a).to_u64(), a as u64, "{a:e}");
        assert!(same_double(s(a).to_double(), f64::from(a)));
        let n = source.next() >> (source.next() % 64);
        assert!(same(Single::from_u64(n), n as f32));
    }
}

#[test]
fn double_arithmetic_is_the_machines() {
    let mut source = Source(0xfeed_face_0123_4567);
    for _ in 0..200_000 {
        let (a, b) = (source.double(), source.double());
        assert!(same_double(d(a).plus(d(b)), a + b), "{a:e} + {b:e}");
        assert!(same_double(d(a).minus(d(b)), a - b), "{a:e} - {b:e}");
        assert!(same_double(d(a).times(d(b)), a * b), "{a:e} * {b:e}");
        assert!(same_double(d(a).over(d(b)), a / b), "{a:e} / {b:e}");
        assert!(same_double(d(a).round(), a.round()));
        assert!(same(d(a).to_single(), a as f32), "{a:e}");
        assert_eq!(d(a).to_u64(), a as u64);
        let n = source.next() >> (source.next() % 64);
        assert!(same_double(Double::from_u64(n), n as f64));
    }
}
