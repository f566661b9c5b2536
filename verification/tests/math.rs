use math_optim::math::conv::ntt::{
    get_ntt_roots, intt, intt_with, ntt, ntt_conv, ntt_conv_with, ntt_with,
};
use math_optim::math::gcd::{binary_gcd, binary_lcm, gcd, lcm};
use math_optim::math::gf::GF;
use math_optim::math::gf_comb::Comb;
use math_optim::math::integer::isqrt;
use math_optim::math::modint::pow_mod;
use math_optim::math::prime::{divisors, factorize, is_prime, primitive_root};

const P: u32 = 998_244_353;

#[test]
fn greatest_common_divisors() {
    let cases = [
        (12u64, 18u64, 6u64),
        (18, 12, 6),
        (0, 5, 5),
        (5, 0, 5),
        (0, 0, 0),
        (17, 13, 1),
        (1, 1, 1),
        (48, 180, 12),
        (1 << 63, 1 << 62, 1 << 62),
        (u64::MAX, u64::MAX, u64::MAX),
        (u64::MAX, 1, 1),
        (3 << 40, 5 << 20, 1 << 20),
        (600_851_475_143, 6_857, 6_857),
    ];
    for (a, b, g) in cases {
        assert_eq!(gcd(a, b), g, "gcd({}, {})", a, b);
        assert_eq!(binary_gcd(a, b), g, "binary_gcd({}, {})", a, b);
    }
}

#[test]
fn binary_gcd_agrees_with_euclid() {
    for a in 0..60u64 {
        for b in 0..60u64 {
            assert_eq!(binary_gcd(a, b), gcd(a, b));
        }
    }
}

#[test]
fn least_common_multiples() {
    let cases = [
        (4u64, 6u64, 12u64),
        (0, 5, 0),
        (5, 0, 0),
        (0, 0, 0),
        (21, 6, 42),
        (7, 7, 7),
        (1, 9, 9),
        (1 << 32, 1 << 31, 1 << 32),
        (4_294_967_291, 4_294_967_279, 18_446_743_979_220_271_189),
    ];
    for (a, b, l) in cases {
        assert_eq!(lcm(a, b), l, "lcm({}, {})", a, b);
        assert_eq!(binary_lcm(a, b), l, "binary_lcm({}, {})", a, b);
    }
}

#[test]
fn integer_square_roots() {
    let cases = [
        (0u64, 0u64),
        (1, 1),
        (2, 1),
        (3, 1),
        (4, 2),
        (15, 3),
        (16, 4),
        (17, 4),
        (99, 9),
        (100, 10),
        (1_000_000_000_000_000_000, 1_000_000_000),
        (18_446_744_065_119_617_025, 4_294_967_295),
        (18_446_744_065_119_617_024, 4_294_967_294),
        (u64::MAX, 4_294_967_295),
    ];
    for (n, r) in cases {
        assert_eq!(isqrt(n), r, "isqrt({})", n);
    }
    for n in 0..2000u64 {
        let r = isqrt(n);
        assert!(r * r <= n && n < (r + 1) * (r + 1));
    }
}

#[test]
fn powers_modulo() {
    assert_eq!(pow_mod(2, 10, 1000), 24);
    assert_eq!(pow_mod(3, 0, 7), 1);
    assert_eq!(pow_mod(5, 0, 1), 1);
    assert_eq!(pow_mod(5, 3, 1), 0);
    assert_eq!(pow_mod(0, 5, 7), 0);
    assert_eq!(pow_mod(10, 3, 7), 6);
    assert_eq!(pow_mod(2, 64, 1_000_000_007), 582_344_008);
    assert_eq!(pow_mod(3, 998_244_352, 998_244_353), 1);
    assert_eq!(pow_mod(u64::MAX, 2, 4_294_967_296), 1);
}

#[test]
fn field_elements() {
    type F = GF<7>;
    assert_eq!(F::modulus(), 7);
    assert_eq!(F::zero().value(), 0);
    assert_eq!(F::one().value(), 1);
    assert_eq!(F::new(10).value(), 3);
    assert_eq!(F::new(7).value(), 0);
    assert_eq!((F::new(3) + F::new(5)).value(), 1);
    assert_eq!((F::new(3) - F::new(5)).value(), 5);
    assert_eq!((F::new(5) - F::new(3)).value(), 2);
    assert_eq!((F::new(3) * F::new(5)).value(), 1);
    assert_eq!((F::new(3) / F::new(5)).value(), 2);
    assert_eq!((-F::new(3)).value(), 4);
    assert_eq!((-F::new(0)).value(), 0);
    assert_eq!(F::new(3).inv().value(), 5);
    assert_eq!(F::new(3).pow(2).value(), 2);
    assert_eq!(F::new(3).pow(0).value(), 1);
    assert_eq!(F::new(3).pow(6).value(), 1);
    assert_eq!(F::new(3).pow(8).value(), 2);
    assert_eq!(F::new(10), F::new(3));
    assert_ne!(F::new(10), F::new(4));
    for a in 1..7 {
        assert_eq!((F::new(a) * F::new(a).inv()).value(), 1);
    }
}

#[test]
fn field_elements_from_signed_numbers() {
    type F = GF<7>;
    assert_eq!(F::from_i64(-1).value(), 6);
    assert_eq!(F::from_i64(-8).value(), 6);
    assert_eq!(F::from_i64(-7).value(), 0);
    assert_eq!(F::from_i64(15).value(), 1);
    assert_eq!(F::from_i64(i64::MIN).value(), 6);
    assert_eq!(F::from_i64(i64::MAX).value(), 0);
    assert_eq!(GF::<P>::from_i64(-1).value(), P - 1);
}

#[test]
fn power_of_zero_with_a_reduced_exponent() {
    // the exponent `6` is a multiple of `7 - 1`: the power of zero is zero all the same
    assert_eq!(GF::<7>::new(0).pow(6).value(), 0);
    assert_eq!(GF::<7>::new(0).pow(12).value(), 0);
    assert_eq!(GF::<5>::new(0).pow(4).value(), 0);
    assert_eq!(GF::<7>::new(0).pow(5).value(), 0);
    assert_eq!(GF::<7>::new(0).pow(0).value(), 1);
    assert_eq!(GF::<7>::new(3).pow(6).value(), 1);
    assert_eq!(GF::<7>::new(3).pow(0).value(), 1);
}

#[test]
fn large_modulus() {
    type F = GF<P>;
    assert_eq!((F::new(P - 1) + F::new(P - 1)).value(), P - 2);
    assert_eq!((F::new(P - 1) * F::new(P - 1)).value(), 1);
    assert_eq!((F::new(0) - F::new(1)).value(), P - 1);
    assert_eq!(F::new(3).pow(P - 1).value(), 1);
    assert_eq!((F::new(2).inv() * F::new(2)).value(), 1);
    assert_eq!(F::new(2).inv().value(), 499_122_177);
}

#[test]
fn combinatorial_numbers() {
    let comb = Comb::<P>::build(10);
    assert_eq!(comb.factorial(0).value(), 1);
    assert_eq!(comb.factorial(5).value(), 120);
    assert_eq!(comb.factorial(9).value(), 362_880);
    for n in 0..10 {
        assert_eq!((comb.factorial(n) * comb.inv_factorial(n)).value(), 1);
    }
    assert_eq!(comb.binom(5, 2).value(), 10);
    assert_eq!(comb.binom(5, 0).value(), 1);
    assert_eq!(comb.binom(5, 5).value(), 1);
    assert_eq!(comb.binom(9, 4).value(), 126);
    assert_eq!(comb.perm(5, 2).value(), 20);
    assert_eq!(comb.perm(5, 0).value(), 1);
    assert_eq!(comb.perm(5, 5).value(), 120);
    assert_eq!(comb.multinom(6, &[1, 2, 3]).value(), 60);
    assert_eq!(comb.multinom(0, &[]).value(), 1);
    assert_eq!(comb.multinom(4, &[4]).value(), 1);
    assert_eq!(comb.homogeneous(3, 2).value(), 4);
    assert_eq!(comb.homogeneous(0, 5).value(), 1);
    assert_eq!(comb.homogeneous(4, 3).value(), 15);
}

#[test]
fn combinatorial_numbers_modulo_a_small_prime() {
    let comb = Comb::<7>::build(5);
    assert_eq!(comb.factorial(4).value(), 3);
    assert_eq!(comb.binom(4, 2).value(), 6);
    assert_eq!(comb.inv_factorial(4).value(), 5);
    let one = Comb::<7>::build(1);
    assert_eq!(one.factorial(0).value(), 1);
    assert_eq!(one.inv_factorial(0).value(), 1);
}

#[test]
fn primes_and_composites() {
    let primes = [
        2u64,
        3,
        5,
        7,
        11,
        13,
        61,
        97,
        7_919,
        998_244_353,
        1_000_000_007,
        4_759_123_151,
        18_446_744_073_709_551_557,
    ];
    for p in primes {
        assert!(is_prime(p), "{} is prime", p);
    }
    let composites = [
        0u64,
        1,
        4,
        9,
        15,
        49,
        561,
        3_721,
        2_047,
        1_373_653,
        3_215_031_751,
        4_759_123_141,
        341_550_071_728_321,
        18_446_744_073_709_551_615,
        18_446_744_073_709_551_556,
    ];
    for c in composites {
        assert!(!is_prime(c), "{} is not prime", c);
    }
}

#[test]
fn primality_by_trial() {
    for n in 0..3000u64 {
        let expected = n >= 2 && (2..n).take_while(|d| d * d <= n).all(|d| n % d != 0);
        assert_eq!(is_prime(n), expected, "{}", n);
    }
}

#[test]
fn all_divisors() {
    assert_eq!(divisors(0), Vec::<u64>::new());
    assert_eq!(divisors(1), vec![1]);
    assert_eq!(divisors(2), vec![1, 2]);
    assert_eq!(divisors(12), vec![1, 2, 3, 4, 6, 12]);
    assert_eq!(divisors(36), vec![1, 2, 3, 4, 6, 9, 12, 18, 36]);
    assert_eq!(divisors(97), vec![1, 97]);
    assert_eq!(divisors(1 << 10).len(), 11);
    assert_eq!(divisors(1_000_000_007), vec![1, 1_000_000_007]);
}

#[test]
fn prime_factors() {
    assert_eq!(factorize(1), Vec::<u64>::new());
    assert_eq!(factorize(2), vec![2]);
    assert_eq!(factorize(3), vec![3]);
    assert_eq!(factorize(7), vec![7]);
    assert_eq!(factorize(12), vec![2, 2, 3]);
    assert_eq!(factorize(35), vec![5, 7]);
    assert_eq!(factorize(49), vec![7, 7]);
    assert_eq!(factorize(3_721), vec![61, 61]);
    assert_eq!(factorize(5_005), vec![5, 7, 11, 13]);
    assert_eq!(factorize(1 << 20), vec![2; 20]);
    let mut expected = vec![2; 23];
    expected.extend([7, 17]);
    assert_eq!(factorize(998_244_352), expected);
    assert_eq!(factorize(998_244_359_987_710_471), vec![998_244_353, 1_000_000_007]);
    assert_eq!(factorize(u64::MAX), vec![3, 5, 17, 257, 641, 65_537, 6_700_417]);
    assert_eq!(factorize(18_446_744_073_709_551_557), vec![18_446_744_073_709_551_557]);
}

#[test]
fn factors_multiply_to_the_number() {
    for n in 1..2000u64 {
        let factors = factorize(n);
        assert_eq!(factors.iter().product::<u64>(), n);
        assert!(factors.windows(2).all(|w| w[0] <= w[1]));
        assert!(factors.iter().all(|&f| is_prime(f)));
    }
}

#[test]
fn primitive_roots() {
    assert_eq!(primitive_root(2), 1);
    assert_eq!(primitive_root(3), 2);
    assert_eq!(primitive_root(5), 2);
    assert_eq!(primitive_root(7), 3);
    assert_eq!(primitive_root(23), 5);
    assert_eq!(primitive_root(167_772_161), 3);
    assert_eq!(primitive_root(469_762_049), 3);
    assert_eq!(primitive_root(754_974_721), 11);
    assert_eq!(primitive_root(998_244_353), 3);
    assert_eq!(primitive_root(1_000_000_007), 5);
}

fn elements(values: &[u32]) -> Vec<GF<P>> {
    values.iter().map(|&v| GF::<P>::new(v)).collect()
}

fn values(elements: &[GF<P>]) -> Vec<u32> {
    elements.iter().map(|x| x.value()).collect()
}

#[test]
fn convolution() {
    let c = ntt_conv(&elements(&[1, 2, 3]), &elements(&[4, 5, 6]));
    assert_eq!(values(&c), vec![4, 13, 28, 27, 18]);
    let c = ntt_conv(&elements(&[2]), &elements(&[3]));
    assert_eq!(values(&c), vec![6]);
    let c = ntt_conv(&elements(&[1, 1]), &elements(&[1, P - 1]));
    assert_eq!(values(&c), vec![1, 0, P - 1]);
    assert!(ntt_conv(&elements(&[]), &elements(&[1, 2])).is_empty());
    assert!(ntt_conv(&elements(&[1, 2]), &elements(&[])).is_empty());
}

#[test]
fn convolution_agrees_with_the_definition() {
    let a: Vec<u32> = (0..37).map(|i| (i * i + 3) % 1000).collect();
    let b: Vec<u32> = (0..21).map(|i| (7 * i + 11) % 1000).collect();
    let mut expected = vec![0u64; a.len() + b.len() - 1];
    for (i, &x) in a.iter().enumerate() {
        for (j, &y) in b.iter().enumerate() {
            expected[i + j] = (expected[i + j] + x as u64 * y as u64) % P as u64;
        }
    }
    let c = ntt_conv(&elements(&a), &elements(&b));
    assert_eq!(values(&c).iter().map(|&v| v as u64).collect::<Vec<_>>(), expected);
}

#[test]
fn transform_and_back() {
    let input: Vec<u32> = (0..16).map(|i| i * 12_345 + 1).collect();
    let mut data = elements(&input);
    ntt(&mut data);
    assert_ne!(values(&data), input);
    intt(&mut data);
    assert_eq!(values(&data), input);
}

#[test]
fn roots_of_the_transform() {
    let roots = get_ntt_roots(P);
    // the first forward root is a primitive fourth root of unity
    let i = GF::<P>::new(roots.forward[0]);
    assert_eq!((i * i).value(), P - 1);
    let j = GF::<P>::new(roots.inverse[0]);
    assert_eq!((i * j).value(), 1);
    assert!(roots.forward.iter().all(|&r| r < P));
    assert_eq!(roots.forward[22], 0);
    assert_ne!(roots.forward[21], 0);
}

#[test]
fn each_root_is_the_negative_of_the_square_of_the_next() {
    let roots = get_ntt_roots(P);
    for l in 1..22 {
        let r = GF::<P>::new(roots.forward[l]);
        let before = GF::<P>::new(roots.forward[l - 1]);
        assert_eq!((before + r * r).value(), 0);
    }
    for l in 0..22 {
        let r = GF::<P>::new(roots.forward[l]);
        let v = GF::<P>::new(roots.inverse[l]);
        assert_eq!((r * v).value(), 1);
    }
}

#[test]
fn transform_holds_the_values_of_the_polynomial() {
    let roots = get_ntt_roots(P);
    let mut data = elements(&[5]);
    ntt_with(&mut data, &roots.forward);
    assert_eq!(values(&data), vec![5]);
    let mut data = elements(&[5, 3]);
    ntt_with(&mut data, &roots.forward);
    assert_eq!(values(&data), vec![8, 2]);
    // with four elements, the points are 1, -1, i and -i
    let input = [7u32, 11, 13, 17];
    let mut data = elements(&input);
    ntt_with(&mut data, &roots.forward);
    let i = GF::<P>::new(roots.forward[0]);
    let points = [GF::<P>::new(1), GF::<P>::new(P - 1), i, GF::<P>::new(0) - i];
    for (k, &x) in points.iter().enumerate() {
        let mut value = GF::<P>::new(0);
        let mut power = GF::<P>::new(1);
        for &a in &input {
            value = value + GF::<P>::new(a) * power;
            power = power * x;
        }
        assert_eq!(data[k].value(), value.value());
    }
    intt_with(&mut data, &roots.inverse);
    assert_eq!(values(&data), input.to_vec());
}

#[test]
fn field_elements_assigned() {
    let mut x = GF::<P>::new(P - 1);
    x += GF::<P>::new(5);
    assert_eq!(x.value(), 4);
    x -= GF::<P>::new(7);
    assert_eq!(x.value(), P - 3);
    x *= GF::<P>::new(P - 2);
    assert_eq!(x.value(), 6);
    let mut y = GF::<4_294_967_291>::new(4_294_967_290);
    y += GF::<4_294_967_291>::new(4_294_967_290);
    assert_eq!(y.value(), 4_294_967_289);
    y -= GF::<4_294_967_291>::new(4_294_967_290);
    assert_eq!(y.value(), 4_294_967_290);
    y *= y;
    assert_eq!(y.value(), 1);
    let mut z = GF::<P>::new(10);
    z /= GF::<P>::new(5);
    assert_eq!(z.value(), 2);
    z /= GF::<P>::new(4);
    assert_eq!((z * GF::<P>::new(2)).value(), 1);
}

#[test]
fn convolution_with_a_table_of_roots() {
    let roots = get_ntt_roots(P);
    let c = ntt_conv_with(&elements(&[1, 2, 3]), &elements(&[4, 5, 6]), &roots);
    assert_eq!(values(&c), vec![4, 13, 28, 27, 18]);
    let c = ntt_conv_with(&elements(&[P - 1]), &elements(&[P - 1, 2]), &roots);
    assert_eq!(values(&c), vec![1, P - 2]);
    assert!(ntt_conv_with(&elements(&[]), &elements(&[1]), &roots).is_empty());
}

#[test]
fn convolution_of_nothing_with_any_modulus() {
    let some = [GF::<2>::new(1), GF::<2>::new(0)];
    assert!(ntt_conv::<2>(&[], &some).is_empty());
    assert!(ntt_conv::<2>(&some, &[]).is_empty());
    assert!(ntt_conv::<2>(&[], &[]).is_empty());
}
