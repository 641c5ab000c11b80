use crypto_traits::curve::Compaction;
use crypto_traits::curve::Compression;
use crypto_traits::curve::Curve;
use crypto_traits::point::AffinePoint;
use crypto_traits::point::Decompact;
use crypto_traits::point::Decompress;
use subtle::Choice;

struct Plain;

impl Compression for Plain {
    const COMPRESS_POINTS: bool = false;
}

impl Compaction for Plain {
    const COMPACT_POINTS: bool = false;
}

struct Compressing;

impl Compression for Compressing {
    const COMPRESS_POINTS: bool = true;
}

impl Compaction for Compressing {
    const COMPACT_POINTS: bool = false;
}

struct Compacting;

impl Compression for Compacting {
    const COMPRESS_POINTS: bool = false;
}

impl Compaction for Compacting {
    const COMPACT_POINTS: bool = true;
}

fn toy_curve() -> Curve {
    Curve::new::<Plain>(97, 2, 3, 1).unwrap()
}

fn decompress(curve: &Curve, x: &[u8], odd: u8) -> Option<AffinePoint> {
    Option::from(AffinePoint::decompress(curve, x, Choice::from(odd)))
}

fn decompact(curve: &Curve, x: &[u8]) -> Option<AffinePoint> {
    Option::from(AffinePoint::decompact(curve, x))
}

#[test]
fn toy_curve_point_compresses_to_x_and_even_sign() {
    let curve = toy_curve();
    let point = AffinePoint::new(&curve, 3, 6).unwrap();
    let (bytes, sign) = point.compress().unwrap();
    assert_eq!(bytes, vec![3u8]);
    assert_eq!(sign.unwrap_u8(), 0);
}

#[test]
fn toy_curve_decompress_even_gives_3_6() {
    let curve = toy_curve();
    let point = decompress(&curve, &[3], 0).unwrap();
    assert_eq!(point.x(), 3);
    assert_eq!(point.y(), 6);
    assert!(!point.is_identity());
    assert_eq!(point, AffinePoint::new(&curve, 3, 6).unwrap());
}

#[test]
fn toy_curve_decompress_odd_gives_3_91() {
    let curve = toy_curve();
    let point = decompress(&curve, &[3], 1).unwrap();
    assert_eq!(point.x(), 3);
    assert_eq!(point.y(), 91);
    assert_eq!(point, AffinePoint::new(&curve, 3, 91).unwrap());
}

#[test]
fn compressed_round_trip_over_the_whole_toy_curve() {
    let curve = toy_curve();
    let mut points = 0;
    for x in 0..97u64 {
        for y in 0..97u64 {
            if let Some(point) = AffinePoint::new(&curve, x, y) {
                points += 1;
                assert_eq!((y * y) % 97, (x * x * x + 2 * x + 3) % 97);
                let (bytes, sign) = point.compress().unwrap();
                assert_eq!(bytes, vec![x as u8]);
                assert_eq!(sign.unwrap_u8() as u64, y % 2);
                let back = Option::<AffinePoint>::from(AffinePoint::decompress(&curve, &bytes, sign));
                assert_eq!(back, Some(point));
            } else {
                assert_ne!((y * y) % 97, (x * x * x + 2 * x + 3) % 97);
            }
        }
    }
    assert_eq!(points, 99);
}

#[test]
fn compact_round_trip_for_the_smaller_roots() {
    let curve = toy_curve();
    for x in 0..97u64 {
        for y in 0..97u64 {
            if let Some(point) = AffinePoint::new(&curve, x, y) {
                let compact = point.compact();
                if 2 * y < 97 {
                    let bytes = compact.unwrap();
                    assert_eq!(bytes, vec![x as u8]);
                    assert_eq!(decompact(&curve, &bytes), Some(point));
                } else {
                    assert_eq!(compact, None);
                }
            }
        }
    }
}

#[test]
fn decompact_gives_the_smaller_root() {
    let curve = toy_curve();
    let point = decompact(&curve, &[3]).unwrap();
    assert_eq!((point.x(), point.y()), (3, 6));
    let other = AffinePoint::new(&curve, 3, 91).unwrap();
    assert_eq!(other.compact(), None);
    assert_eq!(AffinePoint::new(&curve, 3, 6).unwrap().compact(), Some(vec![3u8]));
}

#[test]
fn off_curve_x_is_rejected_for_every_bit() {
    let curve = toy_curve();
    let mut rejected = 0;
    for x in 0..97u64 {
        let rhs = (x * x * x + 2 * x + 3) % 97;
        let is_square = (0..97u64).any(|y| (y * y) % 97 == rhs);
        let even = decompress(&curve, &[x as u8], 0);
        let odd = decompress(&curve, &[x as u8], 1);
        let compact = decompact(&curve, &[x as u8]);
        assert_eq!(even.is_some(), is_square);
        assert_eq!(odd.is_some(), is_square);
        assert_eq!(compact.is_some(), is_square);
        if !is_square {
            rejected += 1;
        }
    }
    assert_eq!(rejected, 46);
    assert_eq!(decompress(&curve, &[2], 0), None);
    assert_eq!(decompress(&curve, &[2], 1), None);
    assert_eq!(decompact(&curve, &[2]), None);
}

#[test]
fn sign_selects_between_the_two_roots() {
    let curve = toy_curve();
    for x in 0..97u64 {
        for y0 in 1..97u64 {
            if AffinePoint::new(&curve, x, y0).is_some() {
                let y1 = 97 - y0;
                assert_ne!(y0 % 2, y1 % 2);
                let first = decompress(&curve, &[x as u8], (y0 % 2) as u8).unwrap();
                let second = decompress(&curve, &[x as u8], (y1 % 2) as u8).unwrap();
                assert_eq!((first.x(), first.y()), (x, y0));
                assert_eq!((second.x(), second.y()), (x, y1));
            }
        }
    }
}

#[test]
fn root_zero_is_given_for_both_bits() {
    // y^2 = x^3 + 2x + 3 has the point (96, 0): 96^3 + 2*96 + 3 = -1 - 2 + 3 = 0.
    let curve = toy_curve();
    let point = AffinePoint::new(&curve, 96, 0).unwrap();
    assert_eq!(decompress(&curve, &[96], 0), Some(point));
    assert_eq!(decompress(&curve, &[96], 1), Some(point));
    assert_eq!(decompact(&curve, &[96]), Some(point));
    let (bytes, sign) = point.compress().unwrap();
    assert_eq!(bytes, vec![96u8]);
    assert_eq!(sign.unwrap_u8(), 0);
}

#[test]
fn x_zero_is_valid_where_b_is_a_square() {
    // b = 3 is the square of 10 modulo 97.
    let curve = toy_curve();
    let even = decompress(&curve, &[0], 0).unwrap();
    let odd = decompress(&curve, &[0], 1).unwrap();
    assert_eq!((even.x(), even.y()), (0, 10));
    assert_eq!((odd.x(), odd.y()), (0, 87));
    // b = 5 is not a square modulo 97.
    let other = Curve::new::<Plain>(97, 2, 5, 1).unwrap();
    assert_eq!(decompress(&other, &[0], 0), None);
    assert_eq!(decompress(&other, &[0], 1), None);
    assert_eq!(decompact(&other, &[0]), None);
}

#[test]
fn non_canonical_field_element_is_rejected() {
    let curve = toy_curve();
    for x in 97..=255u8 {
        assert_eq!(decompress(&curve, &[x], 0), None);
        assert_eq!(decompress(&curve, &[x], 1), None);
        assert_eq!(decompact(&curve, &[x]), None);
    }
    // 100 = 3 + 97 stands for the residue 3, and is still not accepted.
    assert_eq!(decompress(&curve, &[100], 0), None);
}

#[test]
fn wrong_width_is_rejected() {
    let curve = toy_curve();
    assert_eq!(decompress(&curve, &[], 0), None);
    assert_eq!(decompress(&curve, &[0, 3], 0), None);
    assert_eq!(decompact(&curve, &[0, 3]), None);
    assert_eq!(decompact(&curve, &[]), None);
    let wide = Curve::new::<Plain>(97, 2, 3, 2).unwrap();
    assert_eq!(decompress(&wide, &[3], 0), None);
    let point = decompress(&wide, &[0, 3], 0).unwrap();
    assert_eq!((point.x(), point.y()), (3, 6));
    assert_eq!(point.compress().unwrap().0, vec![0u8, 3u8]);
    assert_eq!(decompress(&wide, &[1, 3], 0), None);
}

#[test]
fn identity_has_no_encoding() {
    let curve = toy_curve();
    let identity = AffinePoint::identity(&curve);
    assert!(identity.is_identity());
    assert_eq!((identity.x(), identity.y()), (0, 0));
    assert!(identity.compress().is_none());
    assert_eq!(identity.compact(), None);
    assert_eq!(identity.curve(), curve);
}

#[test]
fn decompression_never_gives_the_identity() {
    let curve = toy_curve();
    for x in 0..=255u8 {
        for bit in 0..2u8 {
            if let Some(point) = decompress(&curve, &[x], bit) {
                assert!(!point.is_identity());
                assert_eq!(point.curve(), curve);
            }
        }
        if let Some(point) = decompact(&curve, &[x]) {
            assert!(!point.is_identity());
            assert!(2 * point.y() < 97);
        }
    }
}

#[test]
fn plain_option_entry_points_agree() {
    let curve = toy_curve();
    for x in 0..=255u8 {
        assert_eq!(AffinePoint::from_compressed(&curve, &[x], false), decompress(&curve, &[x], 0));
        assert_eq!(AffinePoint::from_compressed(&curve, &[x], true), decompress(&curve, &[x], 1));
        assert_eq!(AffinePoint::from_compact(&curve, &[x]), decompact(&curve, &[x]));
    }
    let point = AffinePoint::from_compressed(&curve, &[3], true).unwrap();
    assert_eq!((point.x(), point.y()), (3, 91));
    let point = AffinePoint::from_compact(&curve, &[3]).unwrap();
    assert_eq!((point.x(), point.y()), (3, 6));
}

#[test]
fn new_point_checks_the_equation_and_the_range() {
    let curve = toy_curve();
    assert!(AffinePoint::new(&curve, 3, 6).is_some());
    assert!(AffinePoint::new(&curve, 3, 91).is_some());
    assert!(AffinePoint::new(&curve, 3, 7).is_none());
    assert!(AffinePoint::new(&curve, 100, 6).is_none());
    assert!(AffinePoint::new(&curve, 3, 103).is_none());
}

#[test]
fn curve_parameters_are_checked() {
    assert!(Curve::new::<Plain>(97, 2, 3, 1).is_some());
    assert!(Curve::new::<Plain>(97, 2, 3, 8).is_some());
    assert!(Curve::new::<Plain>(97, 2, 3, 0).is_none());
    assert!(Curve::new::<Plain>(97, 2, 3, 9).is_none());
    assert!(Curve::new::<Plain>(91, 2, 3, 1).is_none());
    assert!(Curve::new::<Plain>(2, 1, 1, 1).is_none());
    assert!(Curve::new::<Plain>(1, 0, 0, 1).is_none());
    assert!(Curve::new::<Plain>(0, 0, 0, 1).is_none());
    assert!(Curve::new::<Plain>(97, 97, 3, 1).is_none());
    assert!(Curve::new::<Plain>(97, 2, 97, 1).is_none());
    assert!(Curve::new::<Plain>(257, 2, 3, 1).is_none());
    assert!(Curve::new::<Plain>(257, 2, 3, 2).is_some());
    assert!(Curve::new::<Plain>(251, 2, 3, 1).is_some());
    assert!(Curve::new::<Plain>(65537, 2, 3, 2).is_none());
    assert!(Curve::new::<Plain>(65537, 2, 3, 3).is_some());
    assert!(Curve::new::<Plain>(3, 1, 1, 1).is_some());
}

#[test]
fn curve_getters_give_the_parameters() {
    let curve = Curve::new::<Compressing>(97, 2, 3, 4).unwrap();
    assert_eq!(curve.modulus(), 97);
    assert_eq!(curve.a(), 2);
    assert_eq!(curve.b(), 3);
    assert_eq!(curve.field_len(), 4);
    assert_eq!(curve.field().modulus(), 97);
    assert_eq!(curve.evaluate_rhs(3), 36);
    assert_eq!(curve.evaluate_rhs(96), 0);
    assert_eq!(curve.evaluate_rhs(3 + 97), 36);
}

#[test]
fn policy_flags_come_from_the_policy_type() {
    let plain = Curve::new::<Plain>(97, 2, 3, 1).unwrap();
    assert!(!plain.compress_points());
    assert!(!plain.compact_points());
    let compressing = Curve::new::<Compressing>(97, 2, 3, 1).unwrap();
    assert!(compressing.compress_points());
    assert!(!compressing.compact_points());
    let compacting = Curve::new::<Compacting>(97, 2, 3, 1).unwrap();
    assert!(!compacting.compress_points());
    assert!(compacting.compact_points());
    // The flags do not change what is decoded.
    let a = decompress(&compressing, &[3], 1).unwrap();
    let b = decompact(&compressing, &[3]).unwrap();
    assert_eq!((a.x(), a.y()), (3, 91));
    assert_eq!((b.x(), b.y()), (3, 6));
    assert_ne!(plain, compressing);
}

#[test]
fn round_trip_on_a_32_bit_curve() {
    // p = 2^32 - 5 is prime and congruent to 3 modulo 4.
    let p: u64 = 4294967291;
    let curve = Curve::new::<Plain>(p, 7, 11, 4).unwrap();
    let mut found = 0;
    for x in 0..200u64 {
        let bytes = (x as u32).to_be_bytes();
        let even = decompress(&curve, &bytes, 0);
        let odd = decompress(&curve, &bytes, 1);
        assert_eq!(even.is_some(), odd.is_some());
        if let (Some(even), Some(odd)) = (even, odd) {
            found += 1;
            let rhs = ((x * x * x) + 7 * x + 11) % p;
            for point in [even, odd] {
                let y = point.y() as u128;
                assert_eq!((y * y % p as u128) as u64, rhs);
                assert_eq!(point.x(), x);
                let (encoded, sign) = point.compress().unwrap();
                assert_eq!(encoded, bytes.to_vec());
                assert_eq!(decompress(&curve, &encoded, sign.unwrap_u8()), Some(point));
            }
            assert_eq!(even.y() % 2, 0);
            assert_eq!(odd.y() % 2, 1);
            assert_eq!(even.y() + odd.y(), p);
            let small = decompact(&curve, &bytes).unwrap();
            assert_eq!(small.y(), even.y().min(odd.y()));
        }
    }
    assert!(found > 50 && found < 150);
    assert_eq!(decompress(&curve, &[0xff, 0xff, 0xff, 0xfb], 0), None);
    assert_eq!(decompress(&curve, &[0xff, 0xff, 0xff, 0xff], 1), None);
}

#[test]
fn round_trip_where_the_modulus_is_one_more_than_a_power_of_two() {
    // p = 2^16 + 1: the square root takes sixteen rounds.
    let p: u64 = 65537;
    let curve = Curve::new::<Plain>(p, 1, 1, 3).unwrap();
    let mut found = 0;
    for x in 0..p {
        let rhs = (x * x * x + x + 1) % p;
        let bytes = [(x >> 16) as u8, (x >> 8) as u8, x as u8];
        if let Some(point) = decompact(&curve, &bytes) {
            found += 1;
            assert_eq!(point.y() * point.y() % p, rhs);
            assert!(2 * point.y() < p);
            assert_eq!(point.compact(), Some(bytes.to_vec()));
        }
    }
    // About half of the x-coordinates belong to a point.
    assert!(found > 32000 && found < 33500);
}
