//! The description of a short-Weierstrass curve `y^2 = x^3 + a x + b` over a
//! prime field.

use crate::encoding::lemma_radix_power_step;
use crate::encoding::lemma_radix_powers;
use crate::encoding::radix_power;
use crate::field::PrimeField;
use crate::number_theory::is_prime;
use vstd::arithmetic::div_mod::*;
use vstd::prelude::*;

verus! {

/// Point compression settings
pub trait Compression {
    /// Should point compression be applied by default?
    const COMPRESS_POINTS: bool;
}

/// Point compaction settings
pub trait Compaction {
    /// Should point compaction be applied by default?
    const COMPACT_POINTS: bool;
}

/// The right-hand side `x^3 + a x + b` of the curve equation, reduced
/// modulo `p`.
pub open spec fn equation_rhs(p: int, a: int, b: int, x: int) -> int {
    (x * x * x + a * x + b) % p
}

/// The parameters describe a curve that this library can work with: the
/// modulus is an odd prime, the coefficients are residues, and every residue
/// fits in `field_len` bytes, of which there are at most eight.
pub open spec fn valid_parameters(p: int, a: int, b: int, field_len: int) -> bool {
    &&& is_prime(p)
    &&& p > 2
    &&& 0 <= a < p
    &&& 0 <= b < p
    &&& 1 <= field_len <= 8
    &&& p <= radix_power(field_len as nat)
}

/// A curve: its field, its coefficients, the width of an encoded field
/// element, and the two serialization defaults that were fixed when the
/// curve was made.
#[derive(Clone, Copy, Debug, PartialEq, Eq, Structural)]
pub struct Curve {
    field: PrimeField,
    a: u64,
    b: u64,
    field_len: usize,
    compress_points: bool,
    compact_points: bool,
}

impl Curve {
    /// The prime modulus.
    pub closed spec fn spec_modulus(&self) -> u64 {
        self.field.spec_modulus()
    }

    /// The prime modulus, as a mathematical integer.
    pub open spec fn p(self) -> int {
        self.spec_modulus() as int
    }

    /// The coefficient `a`.
    pub closed spec fn spec_a(&self) -> u64 {
        self.a
    }

    /// The coefficient `b`.
    pub closed spec fn spec_b(&self) -> u64 {
        self.b
    }

    /// The number of bytes of an encoded field element.
    pub closed spec fn spec_field_len(&self) -> usize {
        self.field_len
    }

    /// Whether points are compressed by default.
    pub closed spec fn spec_compress_points(&self) -> bool {
        self.compress_points
    }

    /// Whether points are compacted by default.
    pub closed spec fn spec_compact_points(&self) -> bool {
        self.compact_points
    }

    /// The field of the coordinates.
    pub closed spec fn spec_field(&self) -> PrimeField {
        self.field
    }

    /// The right-hand side of the curve equation at `x`.
    pub open spec fn rhs(self, x: int) -> int {
        equation_rhs(self.p(), self.spec_a() as int, self.spec_b() as int, x)
    }

    /// `(x, y)` is a pair of residues that satisfies the curve equation.
    pub open spec fn on_curve(self, x: int, y: int) -> bool {
        &&& 0 <= x < self.p()
        &&& 0 <= y < self.p()
        &&& (y * y) % self.p() == self.rhs(x)
    }

    /// The field is well formed and the parameters are valid for it.
    pub closed spec fn wf(self) -> bool {
        &&& self.field.wf()
        &&& self.a < self.field.p()
        &&& self.b < self.field.p()
        &&& 1 <= self.field_len <= 8
        &&& self.field.p() <= radix_power(self.field_len as nat)
    }

    #[verifier::type_invariant]
    pub open spec fn inv(self) -> bool {
        self.wf()
    }

    /// What well-formedness says of the parameters.
    pub proof fn lemma_wf(self)
        requires
            self.wf(),
        ensures
            is_prime(self.p()),
            2 < self.spec_modulus() <= u64::MAX,
            0 <= self.spec_a() < self.spec_modulus(),
            0 <= self.spec_b() < self.spec_modulus(),
            1 <= self.spec_field_len() <= 8,
            self.spec_modulus() <= radix_power(self.spec_field_len() as nat),
            self.spec_field().wf(),
            self.spec_field().p() == self.spec_modulus(),
    {
        self.field.lemma_modulus();
    }

    /// A curve is determined by its parameters and its two defaults.
    pub proof fn lemma_determined_by_parameters(self, other: Curve)
        requires
            self.wf(),
            other.wf(),
            self.spec_modulus() == other.spec_modulus(),
            self.spec_a() == other.spec_a(),
            self.spec_b() == other.spec_b(),
            self.spec_field_len() == other.spec_field_len(),
            self.spec_compress_points() == other.spec_compress_points(),
            self.spec_compact_points() == other.spec_compact_points(),
        ensures
            self == other,
    {
        self.field.lemma_determined_by_modulus(other.field);
    }

    /// The curve `y^2 = x^3 + a x + b` over the field of `p` elements, whose
    /// elements are encoded in `field_len` bytes. The policy type `P` fixes
    /// the two serialization defaults.
    ///
    /// There is no curve for parameters that are not valid. The test of the
    /// modulus takes about as many divisions as its square root.
    pub fn new<P: Compression + Compaction>(p: u64, a: u64, b: u64, field_len: usize) -> (r:
        Option<Curve>)
        ensures
            r.is_some() <==> valid_parameters(p as int, a as int, b as int, field_len as int),
            r matches Some(c) ==> {
                &&& c.wf()
                &&& c.spec_modulus() == p
                &&& c.spec_a() == a
                &&& c.spec_b() == b
                &&& c.spec_field_len() == field_len
                &&& c.spec_compress_points() == P::COMPRESS_POINTS
                &&& c.spec_compact_points() == P::COMPACT_POINTS
            },
    {
        if field_len < 1 || field_len > 8 || a >= p || b >= p {
            return None;
        }
        let mut limit: u128 = 1;
        let mut i: usize = 0;
        proof {
            lemma_radix_powers();
        }
        while i < field_len
            invariant
                i <= field_len <= 8,
                limit == radix_power(i as nat),
                limit <= radix_power(8),
            decreases field_len - i,
        {
            proof {
                lemma_radix_power_step(i as nat);
                lemma_radix_powers();
                if i + 1 < 8 {
                    vstd::arithmetic::power::lemma_pow_strictly_increases(256, (i + 1) as nat, 8);
                }
            }
            limit = limit * 256;
            i = i + 1;
        }
        if p as u128 > limit {
            return None;
        }
        match PrimeField::new(p) {
            None => None,
            Some(field) => {
                Some(
                    Curve {
                        field,
                        a,
                        b,
                        field_len,
                        compress_points: P::COMPRESS_POINTS,
                        compact_points: P::COMPACT_POINTS,
                    },
                )
            },
        }
    }

    /// The prime modulus.
    #[verifier::when_used_as_spec(spec_modulus)]
    pub fn modulus(&self) -> (r: u64)
        ensures
            r == self.spec_modulus(),
    {
        self.field.modulus()
    }

    /// The coefficient `a`.
    #[verifier::when_used_as_spec(spec_a)]
    pub fn a(&self) -> (r: u64)
        ensures
            r == self.spec_a(),
    {
        self.a
    }

    /// The coefficient `b`.
    #[verifier::when_used_as_spec(spec_b)]
    pub fn b(&self) -> (r: u64)
        ensures
            r == self.spec_b(),
    {
        self.b
    }

    /// The number of bytes of an encoded field element.
    #[verifier::when_used_as_spec(spec_field_len)]
    pub fn field_len(&self) -> (r: usize)
        ensures
            r == self.spec_field_len(),
    {
        self.field_len
    }

    /// Whether points are compressed by default.
    #[verifier::when_used_as_spec(spec_compress_points)]
    pub fn compress_points(&self) -> (r: bool)
        ensures
            r == self.spec_compress_points(),
    {
        self.compress_points
    }

    /// Whether points are compacted by default.
    #[verifier::when_used_as_spec(spec_compact_points)]
    pub fn compact_points(&self) -> (r: bool)
        ensures
            r == self.spec_compact_points(),
    {
        self.compact_points
    }

    /// The field of the coordinates.
    #[verifier::when_used_as_spec(spec_field)]
    pub fn field(&self) -> (r: PrimeField)
        ensures
            r == self.spec_field(),
            r.wf(),
            r.p() == self.spec_modulus(),
    {
        proof {
            use_type_invariant(self);
        }
        self.field
    }

    /// The right-hand side `x^3 + a x + b` of the curve equation at the
    /// residue of `x`.
    pub fn evaluate_rhs(&self, x: u64) -> (r: u64)
        ensures
            r == self.rhs(x as int),
            r < self.spec_modulus(),
    {
        proof {
            use_type_invariant(self);
            self.field.lemma_modulus();
        }
        let x2 = self.field.product(x, x);
        let x3 = self.field.product(x2, x);
        let ax = self.field.product(self.a, x);
        let s = self.field.sum(x3, ax);
        let r = self.field.sum(s, self.b);
        proof {
            let p = self.field.p();
            let xi = x as int;
            lemma_mul_mod_noop_left(xi * xi, xi, p);
            lemma_add_mod_noop(xi * xi * xi, (self.a as int) * xi, p);
            lemma_add_mod_noop(xi * xi * xi + (self.a as int) * xi, self.b as int, p);
            lemma_small_mod(self.b as nat, p as nat);
        }
        r
    }
}

} // verus!
