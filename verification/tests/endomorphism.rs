use num_bigint::{BigInt, BigUint, Sign};
use poke::endomorphism::{
    complex_mul, complex_mul_by_complex_power, cornacchia, cornacchia_extended,
    cornacchia_extended_prime_loop, represent_integer, represent_integer_attempt, Quaternion,
    SignedInteger,
};
use poke::bn::BigNum;
use poke::integer::Int;
use poke::{FAILURE_RETVAL, SUCCESS_RETVAL};

fn small(v: i64) -> Int {
    Int::from_le_bytes(v < 0, &v.unsigned_abs().to_le_bytes())
}

fn int_from_decimal(digits: &str, negative: bool) -> Int {
    let magnitude = BigUint::parse_bytes(digits.as_bytes(), 10).unwrap();
    Int::from_le_bytes(negative, &magnitude.to_bytes_le())
}

fn value(x: &Int) -> BigInt {
    let sign = if x.is_negative() { Sign::Minus } else { Sign::Plus };
    BigInt::from_bytes_le(sign, &x.magnitude_le_bytes())
}

fn big(v: i64) -> BigInt {
    BigInt::from(v)
}

#[test]
fn complex_mul_by_complex_power_test() {
    let test = |x: (&Int, &Int), y: (&Int, &Int), exp: u32, cmp: (BigInt, BigInt)| {
        let result = complex_mul_by_complex_power(x, y, exp);
        assert_eq!((value(&result.0), value(&result.1)), cmp);
    };

    test((&small(3), &small(-4)), (&small(1), &small(2)), 0, (big(3), big(-4)));
    test((&small(3), &small(-4)), (&small(1), &small(2)), 1, (big(11), big(2)));
    test((&small(3), &small(-4)), (&small(1), &small(2)), 2, (big(7), big(24)));
}

#[test]
fn cornacchia_test() {
    let test = |n: i64, p: i64| {
        let (x, y, ok) = cornacchia(&small(n), &small(p));
        assert_eq!(ok, SUCCESS_RETVAL);
        let (x, y) = (value(&x), value(&y));
        assert!(&x * &x + big(n) * &y * &y == big(p));
    };

    test(1, 2);
    test(1, 5);
    test(1, 41);
    test(3, 7);
    test(1, 29);
    test(1, 1381);
}

#[test]
fn cornacchia_test_fail() {
    let test = |n: i64, p: i64| {
        let (_, _, ok) = cornacchia(&small(n), &small(p));
        assert_eq!(ok, FAILURE_RETVAL);
    };

    test(3, 2);
    test(5, 5);
    test(82, 41);
    test(21, 7);
    test(29, 29);
    test(2762, 1381);
}

#[test]
fn cornacchia_extended_prime_loop_test() {
    let test = |c: (&Int, &Int), p: i64, val: u32, cmp: (BigInt, BigInt)| {
        let (x, y, ok) = cornacchia_extended_prime_loop(c, &small(p), val);
        assert_eq!(ok, SUCCESS_RETVAL);
        assert_eq!(value(&x), cmp.0);
        assert_eq!(value(&y), cmp.1);
    };

    test((&small(1), &small(1)), 5, 2, (big(-1), big(7)));
    test((&small(1), &small(0)), 2, 2, (big(0), big(2)));
    test((&small(-8), &small(6)), 41, 1, (big(-64), big(-2)));
    test((&small(31), &small(298)), 17, 1, (big(-174), big(1223)));

    let c_re = int_from_decimal("286292335164776146355279307454016", true);
    let c_im = int_from_decimal("29390034047986289563880081110912", false);
    let cmp_re = value(&int_from_decimal("17365063775578586201598356324038842078208", false));
    let cmp_im = value(&int_from_decimal("120145123962752358003585692097427531473856", true));
    test((&c_re, &c_im), 37, 11, (cmp_re, cmp_im));
}

#[test]
fn complex_mul_multiplies_gaussian_integers() {
    // (2 + 3i)(4 - 5i) = 8 - 10i + 12i + 15 = 23 + 2i
    let (re, im) = complex_mul((&small(2), &small(3)), (&small(4), &small(-5)));
    assert_eq!((value(&re), value(&im)), (big(23), big(2)));
}

#[test]
fn cornacchia_solves_three_mod_four_and_five_mod_eight() {
    // 11 = 3 (mod 4): 11 = 3^2 + 2*1^2; 13 = 5 (mod 8): 13 = 3^2 + 2^2.
    let (x, y, ok) = cornacchia(&small(2), &small(11));
    assert_eq!(ok, SUCCESS_RETVAL);
    assert_eq!((value(&x), value(&y)), (big(3), big(1)));
    let (x, y, ok) = cornacchia(&small(1), &small(13));
    assert_eq!(ok, SUCCESS_RETVAL);
    assert_eq!(value(&x) * value(&x) + value(&y) * value(&y), big(13));
}

#[test]
fn cornacchia_solves_one_mod_eight_with_tonelli_shanks() {
    // 17 = 1 (mod 8) takes the Tonelli-Shanks square root: 17 = 3^2 + 2*2^2 = 4^2 + 1^2.
    let (x, y, ok) = cornacchia(&small(2), &small(17));
    assert_eq!(ok, SUCCESS_RETVAL);
    assert_eq!((value(&x), value(&y)), (big(3), big(2)));
    let (x, y, ok) = cornacchia(&small(1), &small(17));
    assert_eq!(ok, SUCCESS_RETVAL);
    assert_eq!((value(&x), value(&y)), (big(4), big(1)));
    // 41 = 1 (mod 8): 41 = 3^2 + 2*4^2.
    let (x, y, ok) = cornacchia(&small(2), &small(41));
    assert_eq!(ok, SUCCESS_RETVAL);
    assert_eq!(value(&x) * value(&x) + big(2) * value(&y) * value(&y), big(41));
}

#[test]
fn cornacchia_uses_two_as_non_residue_for_five_mod_eight() {
    // 29 and 37 are 5 (mod 8) and -1 has (-1)^((p-1)/4) = -1 there, so the square root of
    // -1 goes through the factor 2: 29 = 5^2 + 2^2, 37 = 6^2 + 1^2.
    let (x, y, ok) = cornacchia(&small(1), &small(29));
    assert_eq!(ok, SUCCESS_RETVAL);
    assert_eq!((value(&x), value(&y)), (big(5), big(2)));
    let (x, y, ok) = cornacchia(&small(1), &small(37));
    assert_eq!(ok, SUCCESS_RETVAL);
    assert_eq!((value(&x), value(&y)), (big(6), big(1)));
}

#[test]
fn cornacchia_without_solution_gives_zero() {
    // -1 is not a square modulo 7, and 7 is no sum of two squares.
    let (x, y, ok) = cornacchia(&small(1), &small(7));
    assert_eq!(ok, FAILURE_RETVAL);
    assert_eq!((value(&x), value(&y)), (big(0), big(0)));
}

/// Miller-Rabin with the first thirteen primes as bases.
fn probably_prime(x: &Int) -> bool {
    if x.is_negative() {
        return false;
    }
    let n = BigUint::from_bytes_le(&x.magnitude_le_bytes());
    let one = BigUint::from(1u32);
    let two = BigUint::from(2u32);
    if n < two {
        return false;
    }
    let bases: [u32; 13] = [2, 3, 5, 7, 11, 13, 17, 19, 23, 29, 31, 37, 41];
    for b in bases {
        let b = BigUint::from(b);
        if n == b {
            return true;
        }
        if &n % &b == BigUint::from(0u32) {
            return false;
        }
    }
    let n_minus_one = &n - &one;
    let mut d = n_minus_one.clone();
    let mut s = 0u32;
    while &d % &two == BigUint::from(0u32) {
        d /= &two;
        s += 1;
    }
    'bases: for b in bases {
        let mut x = BigUint::from(b).modpow(&d, &n);
        if x == one || x == n_minus_one {
            continue;
        }
        for _ in 1..s {
            x = &x * &x % &n;
            if x == n_minus_one {
                continue 'bases;
            }
        }
        return false;
    }
    true
}

fn first_primes(count: usize) -> Vec<Int> {
    let mut primes = Vec::new();
    let mut k: i64 = 2;
    while primes.len() < count {
        if (2..k).take_while(|d| d * d <= k).all(|d| k % d != 0) {
            primes.push(small(k));
        }
        k += 1;
    }
    primes
}

#[test]
fn cornacchia_extended_test() {
    let primes = first_primes(100);
    let bad_primes: Vec<Int> =
        [3, 7, 11, 19, 23, 31, 43, 47, 59, 67, 71, 79, 83].iter().map(|&p| small(p)).collect();

    let test = |n: Int, primes: &[Int]| {
        let (x, y, ok) = cornacchia_extended(&n, primes, &bad_primes, probably_prime);
        assert_eq!(ok, SUCCESS_RETVAL);
        assert_eq!(value(&x) * value(&x) + value(&y) * value(&y), value(&n));
    };

    let n = int_from_decimal("158828126405", false);
    test(n, &primes[..26]);

    let n = int_from_decimal("40014512245953376820", false);
    test(n, &primes[..26]);

    let n = int_from_decimal("13588601138373462550928562093344019331858765165447160913867695800135179682916335386618687107041342641315567209049089762325285514045525398790223782031779675017956905089308664998960177516311434400605404622520285574320810358353904423423012810358448642090586663211232583668667454734852141666802903725775590093049043999776164077647933766930542685009426257611359117058369584270139317425716467676553177434794742587363282934876629123721404464944683384304420820986239594188922650094326930372850811146481429730669474269713207255284173968500838746261882707217336240321810667791730219009998376346822365457541240875528870506928821817510280272725782371744788162331496464288694956312256388500637865037597849249048688448700135956112736510275629520042877377629061438837268497413468138373466165224807808346472654909601360038557113093422495558353125000", false);
    test(n, &primes[..100]);
}

#[test]
fn cornacchia_extended_refuses_bad_primes_and_three_mod_four() {
    let primes = first_primes(26);
    let bad_primes = vec![small(3), small(7)];
    // 21 is divisible by a bad prime.
    let (x, y, ok) = cornacchia_extended(&small(21), &primes, &bad_primes, probably_prime);
    assert_eq!((value(&x), value(&y), ok), (big(0), big(0), FAILURE_RETVAL));
    // 5 * 11 leaves 11 = 3 (mod 4) after the factor 5 is removed.
    let (x, y, ok) = cornacchia_extended(&small(55), &primes, &bad_primes, probably_prime);
    assert_eq!((value(&x), value(&y), ok), (big(0), big(0), FAILURE_RETVAL));
    // 65 = 5 * 13 = 1^2 + 8^2 = 4^2 + 7^2.
    let (x, y, ok) = cornacchia_extended(&small(65), &primes, &bad_primes, probably_prime);
    assert_eq!(ok, SUCCESS_RETVAL);
    assert_eq!(value(&x) * value(&x) + value(&y) * value(&y), big(65));
}

fn quaternion_norm(q: &Quaternion, p: i64) -> BigInt {
    let sq = |s: &SignedInteger| value(&s.n) * value(&s.n);
    sq(&q.x) + sq(&q.y) + big(p) * (sq(&q.z) + sq(&q.t))
}

fn sign_flags_match(q: &Quaternion) -> bool {
    [&q.x, &q.y, &q.z, &q.t].iter().all(|s| {
        (s.is_negative == SUCCESS_RETVAL) == (value(&s.n) < big(0))
    })
}

#[test]
fn represent_integer_finds_quaternion_of_given_norm() {
    // Draw the middle of every range: z = t = 0, and 100 = (-8)^2 + 6^2.
    let middle = |b: &Int| b.div_rem(&small(2)).0;
    let target = BigNum::<1>::new(&[100]);
    let p = BigNum::<1>::from_prime(7);
    let (q, ok) = represent_integer(&target, &p, middle, probably_prime);
    assert_eq!(ok, SUCCESS_RETVAL);
    assert_eq!(quaternion_norm(&q, 7), big(100));
    assert_eq!((value(&q.x.n), value(&q.y.n)), (big(-8), big(6)));
    assert!(sign_flags_match(&q));
}

#[test]
fn represent_integer_uses_the_draws() {
    // Always draw 0: z = -floor(sqrt(1000 / 7)) = -11, then t = -floor(sqrt(142 - 121)) = -4,
    // leaving 1000 - 7 * 137 = 41 = 5^2 + 4^2.
    let lowest = |_: &Int| small(0);
    let target = BigNum::<1>::new(&[1000]);
    let p = BigNum::<1>::from_prime(7);
    let (q, ok) = represent_integer(&target, &p, lowest, probably_prime);
    assert_eq!(ok, SUCCESS_RETVAL);
    assert_eq!((value(&q.z.n), value(&q.t.n)), (big(-11), big(-4)));
    assert_eq!(quaternion_norm(&q, 7), big(1000));
    assert!(sign_flags_match(&q));
}

#[test]
fn represent_integer_attempt_centres_the_draws() {
    // 100 / 7 = 14, m' = 3: the draws 3 and 3 give z = t = 0 and 100 = (-8)^2 + 6^2.
    let target = BigNum::<1>::new(&[100]);
    let p = BigNum::<1>::from_prime(7);
    let (q, ok) = represent_integer_attempt(&target, &p, &small(3), &small(3), probably_prime);
    assert_eq!(ok, SUCCESS_RETVAL);
    assert_eq!(
        (value(&q.x.n), value(&q.y.n), value(&q.z.n), value(&q.t.n)),
        (big(-8), big(6), big(0), big(0))
    );
    assert!(sign_flags_match(&q));
}

#[test]
fn represent_integer_attempt_fails_on_a_bad_prime() {
    // The draw 2 gives z = -1, m'' = floor(sqrt(13)) = 3, and the draw 3 gives t = 0:
    // 100 - 7 = 93 = 3 * 31 is divisible by the bad prime 3.
    let target = BigNum::<1>::new(&[100]);
    let p = BigNum::<1>::from_prime(7);
    let (q, ok) = represent_integer_attempt(&target, &p, &small(2), &small(3), probably_prime);
    assert_eq!(ok, FAILURE_RETVAL);
    assert_eq!(
        (value(&q.x.n), value(&q.y.n), value(&q.z.n), value(&q.t.n)),
        (big(0), big(0), big(-1), big(0))
    );
    assert!(sign_flags_match(&q));
}

