//! Points of a curve and their compressed and compact encodings.
//!
//! A compressed point is the encoded x-coordinate together with one bit that
//! says whether the y-coordinate is odd. A compact point is the encoded
//! x-coordinate alone; it stands for the point whose y-coordinate is the
//! smaller of the two square roots, so that only such points have a compact
//! encoding. The point at infinity has neither encoding.

use crate::ct::choice_and;
use crate::ct::choice_byte;
use crate::ct::choice_from_u8;
use crate::ct::choice_to_u8;
use crate::ct::ct_eq_u64;
use crate::ct::ct_gt_u64;
use crate::ct::ct_option_into;
use crate::ct::ct_option_new;
use crate::ct::ct_option_value;
use crate::ct::ct_select_u64;
use crate::curve::Curve;
use crate::encoding::be_bytes;
use crate::encoding::be_value;
use crate::encoding::decode;
use crate::encoding::encode;
use crate::encoding::lemma_be_bytes_len;
use crate::encoding::lemma_be_bytes_of_value;
use crate::encoding::lemma_be_value_of_bytes;
use crate::number_theory::is_square_mod;
use crate::number_theory::lemma_negated_root;
use crate::number_theory::lemma_root_with_parity;
use crate::number_theory::lemma_root_with_parity_exists;
use crate::number_theory::lemma_smaller_root;
use crate::number_theory::lemma_smaller_root_exists;
use crate::number_theory::root_with_parity;
use crate::number_theory::smaller_root;
use subtle::Choice;
use subtle::CtOption;
use vstd::arithmetic::div_mod::*;
use vstd::prelude::*;

verus! {

/// Attempt to decompress an elliptic curve point from its x-coordinate and
/// a boolean flag indicating whether or not the y-coordinate is odd.
pub trait Decompress: Sized {
    /// Attempt to decompress an elliptic curve point
    fn decompress(curve: &Curve, x: &[u8], y_is_odd: Choice) -> CtOption<Self>;
}

/// Attempt to decompact an elliptic curve point from its x-coordinate alone.
pub trait Decompact: Sized {
    /// Attempt to decompact an elliptic curve point
    fn decompact(curve: &Curve, x: &[u8]) -> CtOption<Self>;
}

/// A point of a curve: the point at infinity, or a pair of residues that
/// satisfies the curve equation.
#[derive(Clone, Copy, Debug, PartialEq, Eq, Structural)]
pub struct AffinePoint {
    curve: Curve,
    x: u64,
    y: u64,
    infinity: bool,
}

/// The byte string has the width of a field element of the curve and stands
/// for a number below the modulus.
pub open spec fn is_canonical(curve: Curve, bytes: Seq<u8>) -> bool {
    bytes.len() == curve.field_len() && be_value(bytes) < curve.p()
}

/// The point that a compressed encoding stands for, if it stands for one.
pub open spec fn decompressed(curve: Curve, bytes: Seq<u8>, odd: bool) -> Option<AffinePoint> {
    let x = be_value(bytes) as int;
    if is_canonical(curve, bytes) && is_square_mod(curve.rhs(x), curve.p()) {
        Some(AffinePoint::at(curve, x, root_with_parity(curve.p(), curve.rhs(x), odd)))
    } else {
        None
    }
}

/// The point that a compact encoding stands for, if it stands for one.
pub open spec fn decompacted(curve: Curve, bytes: Seq<u8>) -> Option<AffinePoint> {
    let x = be_value(bytes) as int;
    if is_canonical(curve, bytes) && is_square_mod(curve.rhs(x), curve.p()) {
        Some(AffinePoint::at(curve, x, smaller_root(curve.p(), curve.rhs(x))))
    } else {
        None
    }
}

/// The compressed encoding of a point: the x-coordinate in bytes and whether
/// the y-coordinate is odd. The point at infinity has none.
pub open spec fn compressed(point: AffinePoint) -> Option<(Seq<u8>, bool)> {
    if point.is_identity() {
        None
    } else {
        Some((be_bytes(point.x() as nat, point.curve().field_len() as nat), point.y() % 2 == 1))
    }
}

/// The compact encoding of a point: the x-coordinate in bytes, if the
/// y-coordinate is the smaller of the two roots. The other points, and the
/// point at infinity, have none.
pub open spec fn compacted(point: AffinePoint) -> Option<Seq<u8>> {
    if point.is_identity() || 2 * point.y() > point.curve().p() {
        None
    } else {
        Some(be_bytes(point.x() as nat, point.curve().field_len() as nat))
    }
}

impl AffinePoint {
    /// The curve of the point.
    pub closed spec fn spec_curve(&self) -> Curve {
        self.curve
    }

    /// The x-coordinate; zero for the point at infinity.
    pub closed spec fn spec_x(&self) -> u64 {
        self.x
    }

    /// The y-coordinate; zero for the point at infinity.
    pub closed spec fn spec_y(&self) -> u64 {
        self.y
    }

    /// Whether this is the point at infinity.
    pub closed spec fn spec_is_identity(&self) -> bool {
        self.infinity
    }

    /// The point `(x, y)` of `curve`.
    pub closed spec fn at(curve: Curve, x: int, y: int) -> AffinePoint {
        AffinePoint { curve, x: x as u64, y: y as u64, infinity: false }
    }

    /// The point at infinity of `curve`.
    pub closed spec fn infinity(curve: Curve) -> AffinePoint {
        AffinePoint { curve, x: 0, y: 0, infinity: true }
    }

    /// The curve is well formed, and the point is the point at infinity or
    /// satisfies the curve equation.
    pub closed spec fn wf(self) -> bool {
        &&& self.curve.wf()
        &&& if self.infinity {
            self.x == 0 && self.y == 0
        } else {
            self.curve.on_curve(self.x as int, self.y as int)
        }
    }

    #[verifier::type_invariant]
    pub open spec fn inv(self) -> bool {
        self.wf()
    }

    /// What well-formedness says of a point.
    pub proof fn lemma_wf(self)
        requires
            self.wf(),
        ensures
            self.curve().wf(),
            !self.is_identity() ==> self.curve().on_curve(self.x() as int, self.y() as int),
            !self.is_identity() ==> self == AffinePoint::at(
                self.curve(),
                self.x() as int,
                self.y() as int,
            ),
            self.is_identity() ==> self == AffinePoint::infinity(self.curve()),
    {
    }

    /// What `at` and `infinity` construct.
    pub proof fn lemma_constructed(curve: Curve, x: int, y: int)
        requires
            curve.wf(),
        ensures
            AffinePoint::infinity(curve).wf(),
            AffinePoint::infinity(curve).is_identity(),
            AffinePoint::infinity(curve).curve() == curve,
            curve.on_curve(x, y) ==> {
                let point = AffinePoint::at(curve, x, y);
                &&& point.wf()
                &&& !point.is_identity()
                &&& point.curve() == curve
                &&& point.x() == x
                &&& point.y() == y
            },
    {
        curve.lemma_wf();
    }

    /// The point at infinity of `curve`.
    pub fn identity(curve: &Curve) -> (r: AffinePoint)
        ensures
            r == AffinePoint::infinity(*curve),
    {
        proof {
            use_type_invariant(curve);
        }
        AffinePoint { curve: *curve, x: 0, y: 0, infinity: true }
    }

    /// The point `(x, y)` of `curve`, if the two numbers are residues that
    /// satisfy the curve equation.
    pub fn new(curve: &Curve, x: u64, y: u64) -> (r: Option<AffinePoint>)
        ensures
            r == (if curve.on_curve(x as int, y as int) {
                Some(AffinePoint::at(*curve, x as int, y as int))
            } else {
                None
            }),
            r matches Some(point) ==> point.wf(),
    {
        proof {
            use_type_invariant(curve);
            curve.lemma_wf();
        }
        let p = curve.modulus();
        if x >= p || y >= p {
            return None;
        }
        let field = curve.field();
        let lhs = field.product(y, y);
        let rhs = curve.evaluate_rhs(x);
        if lhs == rhs {
            Some(AffinePoint { curve: *curve, x, y, infinity: false })
        } else {
            None
        }
    }

    /// The curve of the point.
    #[verifier::when_used_as_spec(spec_curve)]
    pub fn curve(&self) -> (r: Curve)
        ensures
            r == self.spec_curve(),
            r.wf(),
    {
        proof {
            use_type_invariant(self);
        }
        self.curve
    }

    /// The x-coordinate; zero for the point at infinity.
    #[verifier::when_used_as_spec(spec_x)]
    pub fn x(&self) -> (r: u64)
        ensures
            r == self.spec_x(),
    {
        self.x
    }

    /// The y-coordinate; zero for the point at infinity.
    #[verifier::when_used_as_spec(spec_y)]
    pub fn y(&self) -> (r: u64)
        ensures
            r == self.spec_y(),
    {
        self.y
    }

    /// Whether this is the point at infinity.
    #[verifier::when_used_as_spec(spec_is_identity)]
    pub fn is_identity(&self) -> (r: bool)
        ensures
            r == self.spec_is_identity(),
    {
        self.infinity
    }

    /// The point `(x, y)` if `ok` wraps `1`, the point at infinity if it
    /// wraps `0`, by selection and without a branch.
    fn select_or_identity(curve: &Curve, x: u64, y: u64, ok: Choice) -> (r: AffinePoint)
        requires
            choice_byte(ok) <= 1,
            choice_byte(ok) == 1 ==> curve.on_curve(x as int, y as int),
        ensures
            r == (if choice_byte(ok) == 1 {
                AffinePoint::at(*curve, x as int, y as int)
            } else {
                AffinePoint::infinity(*curve)
            }),
    {
        proof {
            use_type_invariant(curve);
        }
        let xs = ct_select_u64(0, x, ok);
        let ys = ct_select_u64(0, y, ok);
        let infinity = choice_to_u8(ok) == 0;
        AffinePoint { curve: *curve, x: xs, y: ys, infinity }
    }

    /// The compressed encoding of the point: its x-coordinate in as many
    /// big-endian bytes as a field element of the curve takes, and a `Choice`
    /// that says whether its y-coordinate is odd. The point at infinity has
    /// no compressed encoding.
    pub fn compress(&self) -> (r: Option<(Vec<u8>, Choice)>)
        ensures
            match r {
                Some((bytes, sign)) => {
                    &&& choice_byte(sign) <= 1
                    &&& compressed(*self) == Some((bytes@, choice_byte(sign) == 1))
                },
                None => compressed(*self).is_none(),
            },
    {
        proof {
            use_type_invariant(self);
            self.curve.lemma_wf();
        }
        if self.infinity {
            return None;
        }
        let bytes = encode(self.x, self.curve.field_len());
        let field = self.curve.field();
        proof {
            lemma_small_mod(self.y as nat, field.p() as nat);
        }
        let sign = field.is_odd(self.y);
        Some((bytes, sign))
    }

    /// The compact encoding of the point: its x-coordinate in as many
    /// big-endian bytes as a field element of the curve takes. Only a point
    /// whose y-coordinate is the smaller of the two roots has one.
    pub fn compact(&self) -> (r: Option<Vec<u8>>)
        ensures
            match r {
                Some(bytes) => compacted(*self) == Some(bytes@),
                None => compacted(*self).is_none(),
            },
    {
        proof {
            use_type_invariant(self);
            self.curve.lemma_wf();
        }
        let p = self.curve.modulus();
        if self.infinity || self.y > p - self.y {
            return None;
        }
        Some(encode(self.x, self.curve.field_len()))
    }

    /// The point that the compressed encoding stands for, as a plain
    /// `Option`.
    pub fn from_compressed(curve: &Curve, x: &[u8], y_is_odd: bool) -> (r: Option<AffinePoint>)
        ensures
            r == decompressed(*curve, x@, y_is_odd),
            r matches Some(point) ==> point.wf(),
    {
        let bit = choice_from_u8(if y_is_odd { 1u8 } else { 0u8 });
        let r = ct_option_into(AffinePoint::decompress(curve, x, bit));
        proof {
            if let Some(point) = r {
                use_type_invariant(&point);
            }
        }
        r
    }

    /// The point that the compact encoding stands for, as a plain `Option`.
    pub fn from_compact(curve: &Curve, x: &[u8]) -> (r: Option<AffinePoint>)
        ensures
            r == decompacted(*curve, x@),
            r matches Some(point) ==> point.wf(),
    {
        let r = ct_option_into(AffinePoint::decompact(curve, x));
        proof {
            if let Some(point) = r {
                use_type_invariant(&point);
            }
        }
        r
    }
}

/// The field element that the bytes encode, with a `Choice` that says
/// whether the encoding is canonical. Where it is not, the element is zero.
fn decode_field_element(curve: &Curve, bytes: &[u8]) -> (res: (u64, Choice))
    ensures
        res.0 < curve.p(),
        choice_byte(res.1) == (if is_canonical(*curve, bytes@) {
            1u8
        } else {
            0u8
        }),
        res.0 == (if is_canonical(*curve, bytes@) {
            be_value(bytes@)
        } else {
            0
        }),
{
    proof {
        use_type_invariant(curve);
        curve.lemma_wf();
    }
    let p = curve.modulus();
    if bytes.len() != curve.field_len() {
        return (0, choice_from_u8(0));
    }
    let v = decode(bytes);
    let below = ct_gt_u64(p, v);
    let x = ct_select_u64(0, v, below);
    (x, below)
}

/// The x-coordinate that the bytes encode and the smaller square root of
/// the right-hand side of the curve equation there, with a `Choice` that
/// says whether the encoding is canonical and the right-hand side a square.
fn lift_x(curve: &Curve, bytes: &[u8]) -> (res: (u64, u64, Choice))
    ensures
        res.0 < curve.p(),
        res.1 < curve.p(),
        choice_byte(res.2) == (if decompacted(*curve, bytes@).is_some() {
            1u8
        } else {
            0u8
        }),
        decompacted(*curve, bytes@).is_some() ==> {
            &&& res.0 == be_value(bytes@)
            &&& res.1 == smaller_root(curve.p(), curve.rhs(res.0 as int))
            &&& curve.on_curve(res.0 as int, res.1 as int)
            &&& 2 * res.1 < curve.p()
        },
{
    proof {
        use_type_invariant(curve);
        curve.lemma_wf();
    }
    let field = curve.field();
    let (x, canonical) = decode_field_element(curve, bytes);
    let rhs = curve.evaluate_rhs(x);
    proof {
        lemma_small_mod(rhs as nat, field.p() as nat);
        if is_square_mod(rhs as int, curve.p()) {
            lemma_smaller_root_exists(curve.p(), rhs as int);
        }
    }
    let (y, is_square) = field.sqrt(rhs);
    let ok = choice_and(canonical, is_square);
    (x, y, ok)
}

impl Decompress for AffinePoint {
    /// The point with the encoded x-coordinate whose y-coordinate has the
    /// parity that `y_is_odd` asks for. There is none if the encoding is not
    /// canonical or no point of the curve has this x-coordinate.
    ///
    /// Both square roots are computed and one of them is selected; nothing
    /// branches on the coordinates.
    fn decompress(curve: &Curve, x: &[u8], y_is_odd: Choice) -> (r: CtOption<AffinePoint>)
        ensures
            ct_option_value(r) == decompressed(*curve, x@, choice_byte(y_is_odd) == 1),
    {
        proof {
            use_type_invariant(curve);
            curve.lemma_wf();
        }
        let field = curve.field();
        let (x0, y0, ok) = lift_x(curve, x);
        let y1 = field.negate(y0);
        let want = ct_eq_u64(choice_to_u8(y_is_odd) as u64, 1);
        let keep = ct_eq_u64(y0 % 2, choice_to_u8(want) as u64);
        let y = ct_select_u64(y1, y0, keep);
        proof {
            if choice_byte(ok) == 1 {
                let p = curve.p();
                lemma_small_mod(y0 as nat, p as nat);
                lemma_negated_root(p, y0 as int);
                if y0 == 0 {
                    lemma_mod_self_0(p);
                } else {
                    lemma_small_mod((p - y0) as nat, p as nat);
                }
                assert(p % 2 != 0);
                lemma_root_with_parity(
                    p,
                    curve.rhs(x0 as int),
                    choice_byte(y_is_odd) == 1,
                    y as int,
                );
            }
        }
        let point = AffinePoint::select_or_identity(curve, x0, y, ok);
        ct_option_new(point, ok)
    }
}

impl Decompact for AffinePoint {
    /// The point with the encoded x-coordinate whose y-coordinate is the
    /// smaller of the two square roots. There is none if the encoding is not
    /// canonical or no point of the curve has this x-coordinate.
    ///
    /// Nothing branches on the coordinates.
    fn decompact(curve: &Curve, x: &[u8]) -> (r: CtOption<AffinePoint>)
        ensures
            ct_option_value(r) == decompacted(*curve, x@),
    {
        let (x0, y0, ok) = lift_x(curve, x);
        let point = AffinePoint::select_or_identity(curve, x0, y0, ok);
        ct_option_new(point, ok)
    }
}

/// What decompression gives is a point of the curve, never the point at
/// infinity: its x-coordinate is the encoded one, and its y-coordinate has
/// the parity that was asked for, unless it is zero.
pub proof fn lemma_decompressed_point(curve: Curve, bytes: Seq<u8>, odd: bool)
    requires
        curve.wf(),
    ensures
        decompressed(curve, bytes, odd) matches Some(point) ==> {
            &&& point.wf()
            &&& !point.is_identity()
            &&& point.curve() == curve
            &&& point.x() == be_value(bytes)
            &&& curve.on_curve(point.x() as int, point.y() as int)
            &&& point.y() != 0 ==> (point.y() % 2 == 1) == odd
        },
{
    curve.lemma_wf();
    if decompressed(curve, bytes, odd).is_some() {
        let x = be_value(bytes) as int;
        lemma_root_with_parity_exists(curve.p(), curve.rhs(x), odd);
        AffinePoint::lemma_constructed(curve, x, root_with_parity(curve.p(), curve.rhs(x), odd));
    }
}

/// What decompaction gives is a point of the curve, never the point at
/// infinity: its x-coordinate is the encoded one, and its y-coordinate is
/// the smaller of the two roots. The point with the other root is never
/// given.
pub proof fn lemma_decompacted_point(curve: Curve, bytes: Seq<u8>)
    requires
        curve.wf(),
    ensures
        decompacted(curve, bytes) matches Some(point) ==> {
            &&& point.wf()
            &&& !point.is_identity()
            &&& point.curve() == curve
            &&& point.x() == be_value(bytes)
            &&& curve.on_curve(point.x() as int, point.y() as int)
            &&& 2 * point.y() < curve.p()
        },
{
    curve.lemma_wf();
    if decompacted(curve, bytes).is_some() {
        let x = be_value(bytes) as int;
        lemma_smaller_root_exists(curve.p(), curve.rhs(x));
        AffinePoint::lemma_constructed(curve, x, smaller_root(curve.p(), curve.rhs(x)));
    }
}

/// Decompressing the compressed encoding of a point other than the point at
/// infinity gives the point back.
pub proof fn lemma_compress_round_trip(point: AffinePoint)
    requires
        point.wf(),
        !point.is_identity(),
    ensures
        compressed(point) matches Some(encoding) && decompressed(
            point.curve(),
            encoding.0,
            encoding.1,
        ) == Some(point),
{
    let curve = point.curve();
    let p = curve.p();
    let x = point.x() as int;
    let y = point.y() as int;
    point.lemma_wf();
    curve.lemma_wf();
    lemma_be_bytes_len(x as nat, curve.field_len() as nat);
    lemma_be_value_of_bytes(x as nat, curve.field_len() as nat);
    assert(is_square_mod(curve.rhs(x), p)) by {
        assert(0 <= y < p && (y * y) % p == curve.rhs(x));
    }
    lemma_root_with_parity(p, curve.rhs(x), y % 2 == 1, y);
}

/// Decompacting the compact encoding of a point gives the point back. Only
/// the points whose y-coordinate is the smaller of the two roots have a
/// compact encoding.
pub proof fn lemma_compact_round_trip(point: AffinePoint)
    requires
        point.wf(),
        !point.is_identity(),
        2 * point.y() < point.curve().p(),
    ensures
        compacted(point) matches Some(encoding) && decompacted(point.curve(), encoding) == Some(
            point,
        ),
{
    let curve = point.curve();
    let p = curve.p();
    let x = point.x() as int;
    let y = point.y() as int;
    point.lemma_wf();
    curve.lemma_wf();
    lemma_be_bytes_len(x as nat, curve.field_len() as nat);
    lemma_be_value_of_bytes(x as nat, curve.field_len() as nat);
    assert(is_square_mod(curve.rhs(x), p)) by {
        assert(0 <= y < p && (y * y) % p == curve.rhs(x));
    }
    lemma_smaller_root(p, curve.rhs(x), y);
}

/// A point has a compact encoding exactly if it is not the point at infinity
/// and its y-coordinate is the smaller of the two roots.
pub proof fn lemma_compact_exists(point: AffinePoint)
    requires
        point.wf(),
    ensures
        compacted(point).is_some() <==> !point.is_identity() && 2 * point.y() < point.curve().p(),
{
    point.lemma_wf();
    point.curve().lemma_wf();
    assert(point.curve().p() % 2 != 0);
}

/// An x-coordinate at which the right-hand side of the curve equation is not
/// a square is rejected, whatever the sign bit.
pub proof fn lemma_off_curve_rejected(curve: Curve, bytes: Seq<u8>, odd: bool)
    requires
        !is_square_mod(curve.rhs(be_value(bytes) as int), curve.p()),
    ensures
        decompressed(curve, bytes, odd).is_none(),
        decompacted(curve, bytes).is_none(),
{
}

/// Of the two points with one x-coordinate, decompression gives each for the
/// parity of its own y-coordinate.
pub proof fn lemma_sign_selection(curve: Curve, x: int, y: int)
    requires
        curve.wf(),
        curve.on_curve(x, y),
        y != 0,
    ensures
        curve.on_curve(x, curve.p() - y),
        (y % 2 == 1) != ((curve.p() - y) % 2 == 1),
        decompressed(curve, be_bytes(x as nat, curve.field_len() as nat), y % 2 == 1) == Some(
            AffinePoint::at(curve, x, y),
        ),
        decompressed(
            curve,
            be_bytes(x as nat, curve.field_len() as nat),
            (curve.p() - y) % 2 == 1,
        ) == Some(AffinePoint::at(curve, x, curve.p() - y)),
{
    let p = curve.p();
    curve.lemma_wf();
    assert(p % 2 != 0);
    lemma_negated_root(p, y);
    lemma_be_bytes_len(x as nat, curve.field_len() as nat);
    lemma_be_value_of_bytes(x as nat, curve.field_len() as nat);
    assert(is_square_mod(curve.rhs(x), p)) by {
        assert(0 <= y < p && (y * y) % p == curve.rhs(x));
    }
    lemma_root_with_parity(p, curve.rhs(x), y % 2 == 1, y);
    lemma_root_with_parity(p, curve.rhs(x), (p - y) % 2 == 1, p - y);
}

/// A byte string that has not the width of a field element, or that stands
/// for a number that is not below the modulus, is rejected.
pub proof fn lemma_non_canonical_rejected(curve: Curve, bytes: Seq<u8>, odd: bool)
    requires
        bytes.len() != curve.field_len() || be_value(bytes) >= curve.p(),
    ensures
        decompressed(curve, bytes, odd).is_none(),
        decompacted(curve, bytes).is_none(),
{
}

/// Compressing what decompression gave returns the encoding: no two byte
/// strings stand for one x-coordinate.
pub proof fn lemma_decompress_then_compress(curve: Curve, bytes: Seq<u8>, odd: bool)
    requires
        curve.wf(),
    ensures
        decompressed(curve, bytes, odd) matches Some(point) ==> compressed(point) == Some(
            (bytes, point.y() % 2 == 1),
        ),
{
    lemma_decompressed_point(curve, bytes, odd);
    lemma_be_bytes_of_value(bytes);
}

/// Compacting what decompaction gave returns the encoding.
pub proof fn lemma_decompact_then_compact(curve: Curve, bytes: Seq<u8>)
    requires
        curve.wf(),
    ensures
        decompacted(curve, bytes) matches Some(point) ==> compacted(point) == Some(bytes),
{
    lemma_decompacted_point(curve, bytes);
    lemma_be_bytes_of_value(bytes);
}

} // verus!
