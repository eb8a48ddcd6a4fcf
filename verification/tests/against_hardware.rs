use inventory_capacity::binary32::{Binary32, Unpacked};
use inventory_capacity::capacity::{validate_capacity, Item};

struct Lcg(u64);

impl Lcg {
    fn next(&mut self) -> u32 {
        self.0 = self.0.wrapping_mul(6364136223846793005).wrapping_add(1442695040888963407);
        (self.0 >> 32) as u32
    }

    fn below(&mut self, n: u32) -> u32 {
        self.next() % n
    }

    /// A datum whose exponent field lies within `spread` of `centre`.
    fn near(&mut self, centre: u32, spread: u32) -> u32 {
        let lo = centre.saturating_sub(spread);
        let hi = (centre + spread).min(255);
        let field = lo + self.below(hi - lo + 1);
        let fraction = match self.below(4) {
            0 => 0,
            1 => 0x7f_ffff,
            2 => 1 << self.below(23),
            _ => self.next() & 0x7f_ffff,
        };
        (self.below(2) << 31) | (field << 23) | fraction
    }
}

fn b32(bits: u32) -> Binary32 {
    Binary32 { bits }
}

fn batch(weights: &[u32]) -> Vec<Item> {
    weights.iter().enumerate().map(|(i, w)| Item { id: i as u32, weight: b32(*w) }).collect()
}

fn machine_total(weights: &[u32]) -> f32 {
    let mut total = 0.0f32;
    for w in weights {
        total = total + f32::from_bits(*w);
    }
    total
}

/// The datum just below a finite or positively infinite one.
fn predecessor(x: f32) -> f32 {
    let bits = x.to_bits();
    if bits & 0x7fff_ffff == 0 {
        f32::from_bits(0x8000_0001)
    } else if bits >> 31 == 0 {
        f32::from_bits(bits - 1)
    } else {
        f32::from_bits(bits + 1)
    }
}

fn expect_total(weights: &[u32]) {
    let items = batch(weights);
    let total = machine_total(weights);
    if total.is_nan() {
        assert!(!validate_capacity(&items, b32(f32::INFINITY.to_bits())), "{:x?}", weights);
        return;
    }
    assert!(validate_capacity(&items, b32(total.to_bits())), "{:x?}", weights);
    if total != f32::NEG_INFINITY {
        let below = predecessor(total);
        assert!(below < total);
        assert!(!validate_capacity(&items, b32(below.to_bits())), "{:x?}", weights);
    }
}

fn expect_sum(a: u32, b: u32) {
    let sum = f32::from_bits(a) + f32::from_bits(b);
    let got = b32(a).unpack().plus(b32(b).unpack());
    let want = b32(sum.to_bits()).unpack();
    assert_eq!(got, want, "{:#x} + {:#x}", a, b);
}

fn expect_le(a: u32, b: u32) {
    let want = f32::from_bits(a) <= f32::from_bits(b);
    assert_eq!(b32(a).unpack().le(b32(b).unpack()), want, "{:#x} <= {:#x}", a, b);
    assert_eq!(validate_capacity(&batch(&[a]), b32(b)), want, "{:#x} <= {:#x}", a, b);
}

const EDGES: [u32; 24] = [
    0x0000_0000, 0x8000_0000, 0x0000_0001, 0x8000_0001, 0x007f_ffff, 0x807f_ffff, 0x0080_0000,
    0x8080_0000, 0x00ff_ffff, 0x3f80_0000, 0xbf80_0000, 0x3f7f_ffff, 0x3f80_0001, 0x4b80_0000,
    0x4b7f_ffff, 0xcb80_0000, 0x7f7f_ffff, 0xff7f_ffff, 0x7f00_0000, 0x7300_0000, 0x7f80_0000,
    0xff80_0000, 0x7fc0_0000, 0xff80_0001,
];

#[test]
fn unpack_reads_the_three_fields() {
    assert_eq!(b32(0).unpack(), Unpacked::Finite { negative: false, mantissa: 0, exponent: 0 });
    assert_eq!(
        b32(0x8000_0000).unpack(),
        Unpacked::Finite { negative: false, mantissa: 0, exponent: 0 }
    );
    assert_eq!(
        b32(1.0f32.to_bits()).unpack(),
        Unpacked::Finite { negative: false, mantissa: 0x80_0000, exponent: 126 }
    );
    assert_eq!(
        b32((-1.5f32).to_bits()).unpack(),
        Unpacked::Finite { negative: true, mantissa: 0xc0_0000, exponent: 126 }
    );
    assert_eq!(
        b32(0x8000_0003).unpack(),
        Unpacked::Finite { negative: true, mantissa: 3, exponent: 0 }
    );
    assert_eq!(
        b32(f32::MIN_POSITIVE.to_bits()).unpack(),
        Unpacked::Finite { negative: false, mantissa: 0x80_0000, exponent: 0 }
    );
    assert_eq!(
        b32(f32::MAX.to_bits()).unpack(),
        Unpacked::Finite { negative: false, mantissa: 0xff_ffff, exponent: 253 }
    );
    assert_eq!(b32(f32::INFINITY.to_bits()).unpack(), Unpacked::Infinite { negative: false });
    assert_eq!(b32(f32::NEG_INFINITY.to_bits()).unpack(), Unpacked::Infinite { negative: true });
    assert_eq!(b32(f32::NAN.to_bits()).unpack(), Unpacked::Nan);
    assert_eq!(b32(0xff80_0001).unpack(), Unpacked::Nan);
}

#[test]
fn plus_rounds_as_stated() {
    let one = b32(1.0f32.to_bits()).unpack();
    let two = Unpacked::Finite { negative: false, mantissa: 0x80_0000, exponent: 127 };
    assert_eq!(one.plus(one), two);
    // 2^24 + 1 is a tie and goes to 2^24; 2^24 + 3 is a tie and goes to 2^24 + 4.
    let big = b32(16_777_216.0f32.to_bits()).unpack();
    assert_eq!(big.plus(one), big);
    let three = b32(3.0f32.to_bits()).unpack();
    assert_eq!(
        big.plus(three),
        Unpacked::Finite { negative: false, mantissa: 0x80_0002, exponent: 150 }
    );
    let max = b32(f32::MAX.to_bits()).unpack();
    assert_eq!(max.plus(max), Unpacked::Infinite { negative: false });
    let minus_one = b32((-1.0f32).to_bits()).unpack();
    assert_eq!(one.plus(minus_one), Unpacked::Finite { negative: false, mantissa: 0, exponent: 0 });
    let inf = Unpacked::Infinite { negative: false };
    let neg_inf = Unpacked::Infinite { negative: true };
    assert_eq!(inf.plus(neg_inf), Unpacked::Nan);
    assert_eq!(inf.plus(max), inf);
    assert_eq!(Unpacked::Nan.plus(one), Unpacked::Nan);
    assert_eq!(one.plus(Unpacked::Nan), Unpacked::Nan);
}

#[test]
fn le_orders_as_stated() {
    let one = b32(1.0f32.to_bits()).unpack();
    let two = b32(2.0f32.to_bits()).unpack();
    let minus_two = b32((-2.0f32).to_bits()).unpack();
    let inf = Unpacked::Infinite { negative: false };
    let neg_inf = Unpacked::Infinite { negative: true };
    assert!(one.le(two));
    assert!(!two.le(one));
    assert!(one.le(one));
    assert!(minus_two.le(one));
    assert!(!one.le(minus_two));
    assert!(neg_inf.le(minus_two));
    assert!(!minus_two.le(neg_inf));
    assert!(two.le(inf));
    assert!(!inf.le(two));
    assert!(inf.le(inf));
    assert!(neg_inf.le(neg_inf));
    assert!(!inf.le(neg_inf));
    assert!(!Unpacked::Nan.le(inf));
    assert!(!neg_inf.le(Unpacked::Nan));
    assert!(!Unpacked::Nan.le(Unpacked::Nan));
}

#[test]
fn edge_data_add_as_on_the_machine() {
    for a in EDGES {
        for b in EDGES {
            expect_sum(a, b);
            expect_total(&[a, b]);
            for c in EDGES {
                expect_total(&[a, b, c]);
            }
        }
    }
}

#[test]
fn edge_data_compare_as_on_the_machine() {
    for a in EDGES {
        for b in EDGES {
            expect_le(a, b);
        }
    }
}

#[test]
fn arbitrary_data_add_as_on_the_machine() {
    let mut rng = Lcg(0x5eed_0001);
    for _ in 0..200_000 {
        expect_sum(rng.next(), rng.next());
    }
}

#[test]
fn close_exponents_add_as_on_the_machine() {
    let mut rng = Lcg(0x5eed_0002);
    for _ in 0..200_000 {
        let centre = rng.below(256);
        let spread = 1 + rng.below(30);
        expect_sum(rng.near(centre, spread), rng.near(centre, spread));
    }
}

#[test]
fn subnormal_range_adds_as_on_the_machine() {
    let mut rng = Lcg(0x5eed_0003);
    for _ in 0..100_000 {
        expect_sum(rng.near(1, 3), rng.near(1, 3));
    }
}

#[test]
fn top_of_the_range_adds_as_on_the_machine() {
    let mut rng = Lcg(0x5eed_0004);
    for _ in 0..100_000 {
        expect_sum(rng.near(253, 2), rng.near(253, 2));
    }
}

#[test]
fn arbitrary_data_compare_as_on_the_machine() {
    let mut rng = Lcg(0x5eed_0005);
    for _ in 0..100_000 {
        expect_le(rng.next(), rng.next());
        let centre = rng.below(256);
        expect_le(rng.near(centre, 1), rng.near(centre, 1));
    }
}

#[test]
fn batches_total_as_on_the_machine() {
    let mut rng = Lcg(0x5eed_0006);
    for _ in 0..50_000 {
        let n = rng.below(9) as usize;
        let centre = rng.below(255);
        let spread = 1 + rng.below(40);
        let weights: Vec<u32> = (0..n).map(|_| rng.near(centre, spread)).collect();
        expect_total(&weights);
        let bound = rng.near(centre, spread);
        let want = machine_total(&weights) <= f32::from_bits(bound);
        assert_eq!(validate_capacity(&batch(&weights), b32(bound)), want, "{:x?}", weights);
    }
}

#[test]
fn every_pair_of_exponents_adds_as_on_the_machine() {
    let fractions = [0u32, 1, 0x40_0000, 0x2a_aaaa, 0x7f_fffe, 0x7f_ffff];
    for ea in 0..=255u32 {
        for eb in 0..=255u32 {
            for fa in fractions {
                for fb in fractions {
                    let a = (ea << 23) | fa;
                    let b = (eb << 23) | fb;
                    expect_sum(a, b);
                    expect_sum(a, b | 0x8000_0000);
                    expect_sum(a | 0x8000_0000, b);
                }
            }
        }
    }
}

#[test]
fn operands_at_the_alignment_limit_add_as_on_the_machine() {
    let mut rng = Lcg(0x5eed_0007);
    for _ in 0..20_000 {
        let high = 40 + rng.below(215);
        for gap in 22..=28u32 {
            let a = (rng.below(2) << 31) | (high << 23) | (rng.next() & 0x7f_ffff);
            let b = (rng.below(2) << 31) | ((high - gap) << 23) | (rng.next() & 0x7f_ffff);
            expect_sum(a, b);
            expect_sum(b, a);
            expect_sum(a & 0xff80_0000, b);
            expect_sum(a & 0xff80_0000, b | 0x7f_ffff);
            expect_sum(a | 0x7f_ffff, b & 0xff80_0000);
        }
    }
}
