use crypto_traits::encoding::decode;
use crypto_traits::encoding::encode;
use crypto_traits::field::is_prime_u64;
use crypto_traits::field::PrimeField;

#[test]
fn primality_by_trial_division() {
    let primes = [2u64, 3, 5, 7, 11, 13, 97, 251, 257, 65537, 1000000007, 4294967291];
    for p in primes {
        assert!(is_prime_u64(p), "{}", p);
    }
    let composites = [0u64, 1, 4, 6, 9, 15, 91, 255, 561, 65535, 4294967295, 1000000007 * 3];
    for n in composites {
        assert!(!is_prime_u64(n), "{}", n);
    }
    // The square of a prime has no divisor below its root.
    assert!(!is_prime_u64(65537 * 65537));
    assert!(!is_prime_u64(97 * 97));
}

#[test]
fn field_requires_an_odd_prime() {
    assert!(PrimeField::new(0).is_none());
    assert!(PrimeField::new(1).is_none());
    assert!(PrimeField::new(2).is_none());
    assert!(PrimeField::new(9).is_none());
    assert!(PrimeField::new(3).is_some());
    assert!(PrimeField::new(97).is_some());
    assert_eq!(PrimeField::new(97).unwrap().modulus(), 97);
    assert_eq!(PrimeField::new(97), PrimeField::new(97));
}

#[test]
fn field_arithmetic_on_exact_values() {
    let f = PrimeField::new(97).unwrap();
    assert_eq!(f.reduce(100), 3);
    assert_eq!(f.sum(96, 5), 4);
    assert_eq!(f.sum(u64::MAX, u64::MAX), ((u64::MAX as u128 * 2) % 97) as u64);
    assert_eq!(f.negate(6), 91);
    assert_eq!(f.negate(0), 0);
    assert_eq!(f.negate(97 + 6), 91);
    assert_eq!(f.product(6, 6), 36);
    assert_eq!(f.product(91, 91), 36);
    assert_eq!(f.product(u64::MAX, u64::MAX), ((u64::MAX as u128 * u64::MAX as u128) % 97) as u64);
    assert_eq!(f.power(5, 0), 1);
    assert_eq!(f.power(5, 1), 5);
    assert_eq!(f.power(5, 2), 25);
    assert_eq!(f.power(5, 3), 28);
    assert_eq!(f.power(5, 48), 96);
    assert_eq!(f.power(3, 96), 1);
    assert_eq!(f.power(0, 0), 1);
    assert_eq!(f.power(0, 5), 0);
    assert_eq!(f.is_odd(91).unwrap_u8(), 1);
    assert_eq!(f.is_odd(6).unwrap_u8(), 0);
    assert_eq!(f.is_odd(98).unwrap_u8(), 1);
}

#[test]
fn large_modulus_does_not_overflow() {
    // 2^61 - 1 would take long to test for primality; 2^32 - 5 does not.
    let p: u64 = 4294967291;
    let f = PrimeField::new(p).unwrap();
    assert_eq!(f.product(p - 1, p - 1), 1);
    assert_eq!(f.sum(p - 1, p - 1), p - 2);
    assert_eq!(f.power(2, p - 1), 1);
    assert_eq!(f.power(12345, p - 1), 1);
}

fn check_square_roots(p: u64) {
    let f = PrimeField::new(p).unwrap();
    let mut squares = vec![false; p as usize];
    for y in 0..p {
        squares[(y * y % p) as usize] = true;
    }
    let mut count = 0;
    for n in 0..p {
        let (root, ok) = f.sqrt(n);
        assert_eq!(ok.unwrap_u8() == 1, squares[n as usize], "p = {}, n = {}", p, n);
        assert!(root < p);
        if squares[n as usize] {
            count += 1;
            assert_eq!(root * root % p, n, "p = {}, n = {}", p, n);
            assert!(2 * root < p, "p = {}, n = {}", p, n);
        } else {
            assert_eq!(root, 0, "p = {}, n = {}", p, n);
        }
    }
    assert_eq!(count, (p + 1) / 2);
}

#[test]
fn square_root_finds_every_square_and_nothing_else() {
    // Moduli with p - 1 = q * 2^s for s = 1, 2, 3, 4, 5, 8, 12.
    for p in [3u64, 7, 5, 13, 41, 17, 97, 257, 12289, 7681] {
        check_square_roots(p);
    }
}

#[test]
fn square_root_on_the_toy_curve_values() {
    let f = PrimeField::new(97).unwrap();
    let (root, ok) = f.sqrt(36);
    assert_eq!((root, ok.unwrap_u8()), (6, 1));
    let (root, ok) = f.sqrt(5);
    assert_eq!((root, ok.unwrap_u8()), (0, 0));
    let (root, ok) = f.sqrt(0);
    assert_eq!((root, ok.unwrap_u8()), (0, 1));
    let (root, ok) = f.sqrt(97 + 36);
    assert_eq!((root, ok.unwrap_u8()), (6, 1));
    let (root, ok) = f.sqrt(3);
    assert_eq!((root, ok.unwrap_u8()), (10, 1));
    let (root, ok) = f.sqrt(96);
    assert_eq!((root, ok.unwrap_u8()), (22, 1));
}

#[test]
fn big_endian_bytes_on_exact_values() {
    assert_eq!(encode(3, 1), vec![3u8]);
    assert_eq!(encode(3, 2), vec![0u8, 3]);
    assert_eq!(encode(0x0102, 2), vec![1u8, 2]);
    assert_eq!(encode(0x0102, 1), vec![2u8]);
    assert_eq!(encode(7, 0), Vec::<u8>::new());
    assert_eq!(encode(u64::MAX, 8), vec![0xffu8; 8]);
    assert_eq!(encode(0x0102030405060708, 8), vec![1u8, 2, 3, 4, 5, 6, 7, 8]);
    assert_eq!(encode(1, 10), vec![0u8, 0, 0, 0, 0, 0, 0, 0, 0, 1]);
    assert_eq!(decode(&[]), 0);
    assert_eq!(decode(&[3]), 3);
    assert_eq!(decode(&[1, 2]), 0x0102);
    assert_eq!(decode(&[0, 0, 1, 2]), 0x0102);
    assert_eq!(decode(&[0xff; 8]), u64::MAX);
    assert_eq!(decode(&[1, 2, 3, 4, 5, 6, 7, 8]), 0x0102030405060708);
}

#[test]
fn big_endian_bytes_round_trip() {
    for v in [0u64, 1, 255, 256, 65535, 65536, 0xdead_beef, u64::MAX] {
        assert_eq!(decode(&encode(v, 8)), v);
    }
    for len in 0..=8usize {
        let bytes: Vec<u8> = (0..len).map(|i| (i * 37 + 5) as u8).collect();
        assert_eq!(encode(decode(&bytes), len), bytes);
    }
}
