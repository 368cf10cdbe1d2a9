use easytier::num::double::F64;
use easytier::num::single::F32;

fn d(x: f64) -> F64 {
    F64::from_bits(x.to_bits())
}

fn same(a: F64, b: f64) -> bool {
    if b.is_nan() {
        a.is_nan()
    } else {
        a.to_bits() == b.to_bits()
    }
}

struct Draw {
    state: u64,
}

impl Draw {
    fn next(&mut self) -> u64 {
        self.state ^= self.state << 13;
        self.state ^= self.state >> 7;
        self.state ^= self.state << 17;
        self.state
    }

    fn number(&mut self) -> f64 {
        let bits = self.next();
        match self.next() % 8 {
            0 => f64::from_bits(bits),
            1 => f64::from_bits(bits & 0x000f_ffff_ffff_ffff),
            2 => (bits % 1000) as f64,
            3 => (bits % 1000) as f64 / 10.0,
            4 => f64::from_bits((bits & 0x000f_ffff_ffff_ffff) | 0x3ff0_0000_0000_0000),
            5 => -((bits % 100_000) as f64) / 7.0,
            6 => [0.0, -0.0, f64::INFINITY, f64::NEG_INFINITY, f64::NAN, f64::MAX, f64::MIN_POSITIVE, 5e-324]
                [(bits % 8) as usize],
            _ => f64::from_bits((bits & 0x801f_ffff_ffff_ffff) | 0x3fe0_0000_0000_0000),
        }
    }
}

#[test]
fn arithmetic_agrees_with_the_hardware() {
    let mut draw = Draw { state: 0x9e37_79b9_7f4a_7c15 };
    for _ in 0..40_000 {
        let (x, y) = (draw.number(), draw.number());
        let (a, b) = (d(x), d(y));
        assert!(same(a.plus(&b), x + y), "{:e} + {:e}", x, y);
        assert!(same(a.minus(&b), x - y), "{:e} - {:e}", x, y);
        assert!(same(a.times(&b), x * y), "{:e} * {:e}", x, y);
        assert!(same(a.over(&b), x / y), "{:e} / {:e}", x, y);
        assert!(same(a.sqrt(), x.sqrt()), "sqrt {:e}", x);
        assert!(same(a.neg(), -x));
        assert!(same(a.abs(), x.abs()));
        assert_eq!(a.lt(&b), x < y);
        assert_eq!(a.le(&b), x <= y);
        assert_eq!(a.total_le(&b), x.total_cmp(&y).is_le());
        assert_eq!(a.is_nan(), x.is_nan());
        assert_eq!(a.to_u32(), x as u32);
        if x != y {
            assert!(same(a.max(&b), x.max(y)), "max {:e} {:e}", x, y);
            assert!(same(a.min(&b), x.min(y)), "min {:e} {:e}", x, y);
        }
        if y.abs() <= 1e300 {
            assert!(same(a.clamp(&d(-y.abs()), &d(y.abs() + 1.0)), x.clamp(-y.abs(), y.abs() + 1.0)));
        }
    }
}

#[test]
fn whole_numbers_are_rounded_to_even() {
    let mut draw = Draw { state: 77 };
    for k in 0..20_000u64 {
        let n = if k < 100 { k } else { draw.next() >> (k % 64) };
        assert_eq!(F64::from_u64(n).to_bits(), (n as f64).to_bits());
        let m = n as u32;
        assert_eq!(F32::from_u32(m).to_bits(), (m as f32).to_bits());
    }
    assert_eq!(F64::from_u64((1 << 53) + 1).to_bits(), ((1u64 << 53) as f64).to_bits());
    assert_eq!(F64::from_u64(u64::MAX).to_bits(), (u64::MAX as f64).to_bits());
}

#[test]
fn fractions_are_decimal_literals() {
    assert_eq!(F64::ratio(1, 10).to_bits(), 0.1f64.to_bits());
    assert_eq!(F64::ratio(1, 5).to_bits(), 0.2f64.to_bits());
    assert_eq!(F64::ratio(3, 10).to_bits(), 0.3f64.to_bits());
    assert_eq!(F64::ratio(7, 10).to_bits(), 0.7f64.to_bits());
    assert_eq!(F64::ratio(11, 10).to_bits(), 1.10f64.to_bits());
    assert_eq!(F64::ratio(1, 20).to_bits(), 0.05f64.to_bits());
    assert_eq!(F64::ratio(1, 500).to_bits(), 0.002f64.to_bits());
    assert_eq!(F64::ratio(1, 100).to_bits(), 0.01f64.to_bits());
    assert_eq!(F64::ratio(6, 5).to_bits(), 1.2f64.to_bits());
    assert_eq!(F64::ratio(1, 1_000_000).to_bits(), 1e-6f64.to_bits());
    assert_eq!(F64::ratio(1, 1_000_000_000).to_bits(), 1e-9f64.to_bits());
    assert_eq!(F64::zero().to_bits(), 0.0f64.to_bits());
}

#[test]
fn single_precision_agrees_with_the_hardware() {
    let mut draw = Draw { state: 4242 };
    for k in 0..40_000u32 {
        let x = match k % 3 {
            0 => f32::from_bits(draw.next() as u32),
            1 => (draw.next() % 5000) as f32 / 8.0,
            _ => [0.0, -0.0, f32::INFINITY, f32::NAN, f32::MAX, 1e-45, 1.5][(draw.next() % 7) as usize],
        };
        let y = f32::from_bits(draw.next() as u32);
        let (a, b) = (F32::from_bits(x.to_bits()), F32::from_bits(y.to_bits()));
        let product = x * y;
        if product.is_nan() {
            assert!(f32::from_bits(a.times(&b).to_bits()).is_nan());
        } else {
            assert_eq!(a.times(&b).to_bits(), product.to_bits());
        }
        assert_eq!(a.lt(&b), x < y);
        assert_eq!(a.to_u32(), x as u32);
        let wide = x as f64;
        if wide.is_nan() {
            assert!(a.widen().is_nan());
        } else {
            assert_eq!(a.widen().to_bits(), wide.to_bits());
        }
        if x != y {
            let most = x.max(y);
            if most.is_nan() {
                assert!(f32::from_bits(a.max(&b).to_bits()).is_nan());
            } else {
                assert_eq!(a.max(&b).to_bits(), most.to_bits());
            }
        }
    }
}
