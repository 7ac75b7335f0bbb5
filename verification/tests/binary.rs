use compositor::binary::{Binary32, Binary64};

fn b32(x: f32) -> Binary32 {
    Binary32 { bits: x.to_bits() }
}

fn b64(x: f64) -> Binary64 {
    Binary64 { bits: x.to_bits() }
}

fn same32(a: Binary32, b: f32) -> bool {
    a.bits == b.to_bits() || (f32::from_bits(a.bits).is_nan() && b.is_nan())
}

fn same64(a: Binary64, b: f64) -> bool {
    a.bits == b.to_bits() || (f64::from_bits(a.bits).is_nan() && b.is_nan())
}

struct Random(u64);

impl Random {
    fn next(&mut self) -> u64 {
        self.0 ^= self.0 << 13;
        self.0 ^= self.0 >> 7;
        self.0 ^= self.0 << 17;
        self.0
    }
}

fn singles() -> Vec<f32> {
    let mut all = vec![
        0.0,
        -0.0,
        1.0,
        -1.0,
        0.5,
        1.5,
        2.5,
        -2.5,
        0.1,
        3.0,
        f32::MIN_POSITIVE,
        f32::from_bits(1),
        f32::from_bits(0x007f_ffff),
        f32::from_bits(0x8000_0001),
        f32::MAX,
        f32::MIN,
        f32::INFINITY,
        f32::NEG_INFINITY,
        f32::NAN,
        16777216.0,
        16777215.0,
        9.223372e18,
        -9.223372e18,
        1.8446744e19,
    ];
    let mut random = Random(0x9e37_79b9_7f4a_7c15);
    for _ in 0..120 {
        all.push(f32::from_bits(random.next() as u32));
        all.push((random.next() % 20000) as f32 / 7.0 - 1000.0);
    }
    all
}

fn doubles() -> Vec<f64> {
    let mut all = vec![
        0.0,
        -0.0,
        1.0,
        -1.0,
        0.5,
        1.5,
        2.5,
        -2.5,
        0.1,
        48000.0,
        f64::MIN_POSITIVE,
        f64::from_bits(1),
        f64::from_bits(0x000f_ffff_ffff_ffff),
        f64::MAX,
        f64::MIN,
        f64::INFINITY,
        f64::NEG_INFINITY,
        f64::NAN,
        9007199254740992.0,
        9.223372036854775807e18,
        1.8446744073709552e19,
        1.0e-40,
        3.4028235677973366e38,
        3.4028235e38,
    ];
    let mut random = Random(0x2545_f491_4f6c_dd1d);
    for _ in 0..120 {
        all.push(f64::from_bits(random.next()));
        all.push((random.next() % 2000000) as f64 / 7.0 - 100000.0);
    }
    all
}

#[test]
fn single_arithmetic_agrees_with_the_machine() {
    let all = singles();
    for &x in &all {
        for &y in &all {
            let (a, b) = (b32(x), b32(y));
            assert!(same32(a + b, x + y), "{x:e} + {y:e}");
            assert!(same32(a - b, x - y), "{x:e} - {y:e}");
            assert!(same32(a * b, x * y), "{x:e} * {y:e}");
            assert!(same32(a / b, x / y), "{x:e} / {y:e}");
            assert_eq!(a.less(b), x < y);
            assert_eq!(a.at_most(b), x <= y);
            let larger = f32::from_bits(a.max_of(b).bits);
            let smaller = f32::from_bits(a.min_of(b).bits);
            assert!(larger == x.max(y) || (larger.is_nan() && x.max(y).is_nan()));
            assert!(smaller == x.min(y) || (smaller.is_nan() && x.min(y).is_nan()));
        }
    }
}

#[test]
fn double_arithmetic_agrees_with_the_machine() {
    let all = doubles();
    for &x in &all {
        for &y in &all {
            let (a, b) = (b64(x), b64(y));
            assert!(same64(a + b, x + y), "{x:e} + {y:e}");
            assert!(same64(a - b, x - y), "{x:e} - {y:e}");
            assert!(same64(a * b, x * y), "{x:e} * {y:e}");
            assert!(same64(a / b, x / y), "{x:e} / {y:e}");
            assert_eq!(a.less(b), x < y);
            assert_eq!(a.at_most(b), x <= y);
        }
    }
}

#[test]
fn functions_of_one_single_agree_with_the_machine() {
    for &x in &singles() {
        let a = b32(x);
        assert!(same32(a.abs(), x.abs()));
        assert!(same32(a.sqrt(), x.sqrt()), "sqrt {x:e}");
        assert_eq!(a.is_finite(), x.is_finite());
        assert_eq!(a.round_i64(), x.round() as i64, "{x:e}");
        assert_eq!(a.round_u64(), x.round() as u64, "{x:e}");
        assert_eq!(a.floor_i64(), x.floor() as i64, "{x:e}");
        assert!(same64(a.widen(), x as f64));
        if !x.is_nan() {
            assert!(same32(a.limit(b32(-2.0), b32(3.5)), x.clamp(-2.0, 3.5)));
        }
    }
}

#[test]
fn functions_of_one_double_agree_with_the_machine() {
    for &x in &doubles() {
        let a = b64(x);
        assert!(same64(a.abs(), x.abs()));
        assert!(same64(a.sqrt(), x.sqrt()), "sqrt {x:e}");
        assert_eq!(a.round_i64(), x.round() as i64, "{x:e}");
        assert_eq!(a.round_u64(), x.round() as u64, "{x:e}");
        assert_eq!(a.floor_i64(), x.floor() as i64, "{x:e}");
        assert!(same32(a.narrow(), x as f32), "{x:e}");
        if !x.is_nan() {
            assert!(same64(a.limit(b64(-2.0), b64(3.5)), x.clamp(-2.0, 3.5)));
        }
    }
}

#[test]
fn whole_numbers_convert_as_on_the_machine() {
    let mut random = Random(0x1234_5678_9abc_def1);
    for k in 0..400u32 {
        let n = random.next() >> (k % 64);
        assert!(same32(Binary32::count(n), n as f32), "{n}");
        assert!(same64(Binary64::count(n), n as f64), "{n}");
        assert!(same32(Binary32::whole(n as u32), n as u32 as f32));
        assert!(same64(Binary64::whole(n as u32), n as u32 as f64));
        assert!(same32(Binary32::signed(n as i64), n as i64 as f32));
        assert!(same64(Binary64::signed(n as i64), n as i64 as f64));
    }
    assert!(same64(Binary64::signed(i64::MIN), i64::MIN as f64));
    assert!(same32(Binary32::signed(i64::MIN), i64::MIN as f32));
    assert!(same32(Binary32::ratio(55, 100), 0.55));
    assert!(same64(Binary64::ratio(1, 1000), 0.001));
}
