//! Arithmetic in a prime field whose modulus fits in 64 bits.

use crate::ct::choice_byte;
use crate::ct::choice_from_u8;
use crate::ct::ct_eq_u64;
use crate::ct::ct_gt_u64;
use crate::ct::ct_select_u64;
use crate::number_theory::is_non_residue;
use crate::number_theory::is_prime;
use crate::number_theory::is_square_mod;
use crate::number_theory::lemma_minus_one_squared;
use crate::number_theory::lemma_negated_root;
use crate::number_theory::lemma_non_residue_exists;
use crate::number_theory::lemma_odd_part_unique;
use crate::number_theory::lemma_pow_mod_of_power;
use crate::number_theory::lemma_pow_mod_of_square;
use crate::number_theory::lemma_pow_mod_one;
use crate::number_theory::lemma_pow_mod_product;
use crate::number_theory::lemma_pow_mod_square;
use crate::number_theory::lemma_roots_of_one;
use crate::number_theory::lemma_smaller_root;
use crate::number_theory::lemma_square_has_euler_power_one;
use crate::number_theory::pow_mod;
use crate::number_theory::smaller_root;
use subtle::Choice;
use vstd::arithmetic::div_mod::*;
use vstd::arithmetic::mul::*;
use vstd::arithmetic::power2::*;
use vstd::arithmetic::power::*;
use vstd::prelude::*;

verus! {

/// `z` is the least residue of `p` that fails Euler's criterion.
pub open spec fn is_least_non_residue(z: int, p: int) -> bool {
    is_non_residue(z, p) && forall|y: int| 1 <= y < z ==> !is_non_residue(y, p)
}

/// The least residue of `p` that fails Euler's criterion.
pub open spec fn least_non_residue(p: int) -> int {
    choose|z: int| is_least_non_residue(z, p)
}

/// There is one least residue that fails Euler's criterion.
proof fn lemma_least_non_residue(z: int, p: int)
    requires
        is_least_non_residue(z, p),
    ensures
        least_non_residue(p) == z,
{
    let w = least_non_residue(p);
    assert(is_least_non_residue(w, p));
    if w < z {
        assert(!is_non_residue(w, p));
    } else if z < w {
        assert(!is_non_residue(z, p));
    }
}

/// The product of `a` and `b` modulo `m`.
fn mul_mod(a: u64, b: u64, m: u64) -> (r: u64)
    requires
        m > 0,
    ensures
        r == (a * b) % (m as int),
        r < m,
{
    proof {
        assert((a as int) * (b as int) <= 0xffff_ffff_ffff_ffff * 0xffff_ffff_ffff_ffff)
            by (nonlinear_arith)
            requires
                0 <= a <= 0xffff_ffff_ffff_ffff,
                0 <= b <= 0xffff_ffff_ffff_ffff,
        ;
    }
    let wide: u128 = (a as u128) * (b as u128);
    (wide % (m as u128)) as u64
}

/// One round of square-and-multiply keeps the value of `acc * b^e`.
proof fn lemma_power_step(acc: int, b: int, e: nat, p: int)
    requires
        p > 0,
        e > 0,
    ensures
        (acc * pow(b, e)) % p == ((if e % 2 == 1 {
            (acc * b) % p
        } else {
            acc
        }) * pow((b * b) % p, e / 2)) % p,
{
    let k = e / 2;
    let sq = pow(b * b, k);
    assert(pow(b, 2 * k) == sq) by {
        lemma_pow_multiplies(b, 2, k);
        lemma_square_is_pow2(b);
    }
    lemma_pow_mod_noop(b * b, k, p);
    if e % 2 == 1 {
        assert(e == 1 + 2 * k);
        lemma_pow_adds(b, 1, 2 * k);
        lemma_pow1(b);
        assert(acc * pow(b, e) == (acc * b) * sq) by {
            lemma_mul_is_associative(acc, b, sq);
        }
        lemma_mul_mod_noop_general(acc * b, sq, p);
        lemma_mul_mod_noop_general((acc * b) % p, pow((b * b) % p, k), p);
    } else {
        assert(e == 2 * k);
        lemma_mul_mod_noop_general(acc, sq, p);
        lemma_mul_mod_noop_general(acc, pow((b * b) % p, k), p);
    }
}

/// `base` raised to the power `exponent`, modulo `m`.
fn power_mod(base: u64, exponent: u64, m: u64) -> (r: u64)
    requires
        m > 1,
    ensures
        r == pow_mod(base as int, exponent as nat, m as int),
        r < m,
{
    let mut acc: u64 = 1;
    let mut b: u64 = base % m;
    let mut e: u64 = exponent;
    proof {
        lemma_pow_mod_noop(base as int, exponent as nat, m as int);
        lemma_mul_basics(pow(b as int, e as nat));
    }
    while e > 0
        invariant
            m > 1,
            acc < m,
            b < m,
            (acc * pow(b as int, e as nat)) % (m as int) == pow_mod(
                base as int,
                exponent as nat,
                m as int,
            ),
        decreases e,
    {
        proof {
            lemma_power_step(acc as int, b as int, e as nat, m as int);
        }
        if e % 2 == 1 {
            acc = mul_mod(acc, b, m);
        }
        b = mul_mod(b, b, m);
        e = e / 2;
    }
    proof {
        lemma_pow0(b as int);
        lemma_small_mod(acc as nat, m as nat);
    }
    acc
}

/// Whether `p` is prime, by trial division up to its square root.
pub fn is_prime_u64(p: u64) -> (r: bool)
    ensures
        r == is_prime(p as int),
{
    if p < 2 {
        return false;
    }
    let mut d: u64 = 2;
    while d <= p / d
        invariant
            2 <= d <= p,
            forall|k: int| 2 <= k < d ==> #[trigger] ((p as int) % k) != 0,
        decreases p - d,
    {
        proof {
            lemma_fundamental_div_mod(p as int, d as int);
            assert(d * (p / d) >= d * d) by (nonlinear_arith)
                requires
                    d <= p / d,
                    d > 0,
            ;
            assert(d * d >= 2 * d) by (nonlinear_arith)
                requires
                    d >= 2,
            ;
        }
        if p % d == 0 {
            return false;
        }
        d = d + 1;
    }
    proof {
        lemma_fundamental_div_mod(p as int, d as int);
        assert(p < d * d) by (nonlinear_arith)
            requires
                p == d * (p / d) + p % d,
                p / d < d,
                0 <= p % d < d,
        ;
        assert forall|k: int| 1 < k < p implies #[trigger] ((p as int) % k) != 0 by {
            if k >= d && (p as int) % k == 0 {
                let j = (p as int) / k;
                lemma_fundamental_div_mod(p as int, k);
                assert(p == k * j);
                assert(2 <= j < d) by (nonlinear_arith)
                    requires
                        p == k * j,
                        d <= k < p,
                        p < d * d,
                        d >= 2,
                ;
                assert(p == j * k) by (nonlinear_arith)
                    requires
                        p == k * j,
                ;
                lemma_mod_multiples_basic(k, j);
                assert((p as int) % j == 0);
            }
        }
    }
    true
}

/// The field of residues modulo an odd prime.
///
/// Besides the modulus `p` it holds what the square root needs: the
/// decomposition `p - 1 = odd_part * 2^two_adicity` and an element `root`
/// whose order is exactly `2^two_adicity`.
#[derive(Clone, Copy, Debug, PartialEq, Eq, Structural)]
pub struct PrimeField {
    modulus: u64,
    two_adicity: u32,
    odd_part: u64,
    root: u64,
}

/// What the rounds of the square root keep true of the candidate `r`, the
/// correction `t`, the generator `c` and the number `m` of rounds left.
spec fn sqrt_state(p: int, n: int, r: int, t: int, c: int, m: nat) -> bool {
    &&& m >= 1
    &&& 0 <= r < p
    &&& 0 <= t < p
    &&& 0 <= c < p
    &&& (r * r) % p == (n * t) % p
    &&& pow_mod(c, pow2((m - 1) as nat), p) == p - 1
    &&& (n != 0 && is_square_mod(n, p)) ==> pow_mod(t, pow2((m - 1) as nat), p) == 1
    &&& n == 0 ==> r == 0
}

/// The values that the square root starts from satisfy `sqrt_state`.
proof fn lemma_sqrt_start(p: int, n: int, q: nat, s: nat, root: int)
    requires
        is_prime(p),
        p > 2,
        0 <= n < p,
        s >= 1,
        q % 2 == 1,
        p - 1 == q * pow2(s),
        0 <= root < p,
        pow_mod(root, pow2((s - 1) as nat), p) == p - 1,
    ensures
        sqrt_state(p, n, pow_mod(n, ((q + 1) / 2) as nat, p), pow_mod(n, q, p), root, s),
{
    let h = ((q + 1) / 2) as nat;
    let r = pow_mod(n, h, p);
    let t = pow_mod(n, q, p);
    let k = pow2((s - 1) as nat);
    assert(2 * h == q + 1);
    lemma_pow_mod_square(n, h, p);
    lemma_pow_adds(n, 1, q);
    lemma_pow1(n);
    lemma_mul_mod_noop_right(n, pow(n, q), p);
    assert((r * r) % p == (n * t) % p);
    lemma_pow2_unfold(s);
    assert(q * pow2(s) == 2 * (q * k)) by (nonlinear_arith)
        requires
            pow2(s) == 2 * k,
    ;
    assert(q * k == (p - 1) / 2);
    if n != 0 && is_square_mod(n, p) {
        lemma_square_has_euler_power_one(n, p);
        lemma_pow_mod_of_power(n, q, k, p);
    }
    if n == 0 {
        lemma0_pow(h);
        lemma_small_mod(0, p as nat);
    }
}

/// One round of the square root keeps `sqrt_state`, with one round less to
/// go. `e` is the correction raised to the power `2^(m - 2)`.
proof fn lemma_sqrt_round(p: int, n: int, r: int, t: int, c: int, m: nat, e: int)
    requires
        is_prime(p),
        p > 2,
        0 <= n < p,
        m >= 2,
        sqrt_state(p, n, r, t, c, m),
        e == pow_mod(t, pow2((m - 2) as nat), p),
    ensures
        sqrt_state(
            p,
            n,
            if e == p - 1 {
                (r * c) % p
            } else {
                r
            },
            if e == p - 1 {
                (t * ((c * c) % p)) % p
            } else {
                t
            },
            (c * c) % p,
            (m - 1) as nat,
        ),
{
    let k = pow2((m - 2) as nat);
    let c2 = (c * c) % p;
    lemma_pow2_unfold((m - 1) as nat);
    assert(pow2((m - 1) as nat) == 2 * k);
    lemma_pow_mod_of_square(c, k, p);
    assert(pow_mod(c2, k, p) == p - 1);
    if e == p - 1 {
        let r2 = (r * c) % p;
        let t2 = (t * c2) % p;
        assert((r2 * r2) % p == (n * t2) % p) by {
            lemma_mul_mod_noop(r * c, r * c, p);
            assert((r * c) * (r * c) == (r * r) * (c * c)) by (nonlinear_arith);
            lemma_mul_mod_noop(r * r, c * c, p);
            lemma_mul_mod_noop(n * t, c * c, p);
            assert((n * t) * (c * c) == n * (t * (c * c))) by (nonlinear_arith);
            lemma_mul_mod_noop_right(t, c * c, p);
            lemma_mul_mod_noop_right(n, t * (c * c), p);
            lemma_mul_mod_noop_right(n, t * c2, p);
        }
        if n != 0 && is_square_mod(n, p) {
            lemma_pow_mod_product(t, c2, k, p);
            lemma_minus_one_squared(p);
        }
        if n == 0 {
            assert(r * c == 0) by (nonlinear_arith)
                requires
                    r == 0,
            ;
            lemma_small_mod(0, p as nat);
        }
    } else {
        if n != 0 && is_square_mod(n, p) {
            lemma_pow_mod_square(t, k, p);
            lemma_pow_mod_bound(t, k, p);
            lemma_roots_of_one(p, e);
        }
    }
}

/// A reduced power is a residue.
proof fn lemma_pow_mod_bound(b: int, e: nat, p: int)
    requires
        p > 0,
    ensures
        0 <= pow_mod(b, e, p) < p,
{
    lemma_mod_bound(pow(b, e), p);
}

impl PrimeField {
    /// The modulus.
    pub closed spec fn spec_modulus(&self) -> u64 {
        self.modulus
    }

    /// The modulus, as a mathematical integer.
    pub open spec fn p(self) -> int {
        self.spec_modulus() as int
    }

    /// The modulus is an odd prime and the precomputed values belong to it.
    pub closed spec fn wf(self) -> bool {
        &&& is_prime(self.modulus as int)
        &&& self.modulus > 2
        &&& self.two_adicity >= 1
        &&& self.odd_part % 2 == 1
        &&& self.modulus - 1 == self.odd_part * pow2(self.two_adicity as nat)
        &&& self.root < self.modulus
        &&& pow_mod(self.root as int, pow2((self.two_adicity - 1) as nat), self.modulus as int)
            == self.modulus - 1
        &&& self.root == pow_mod(
            least_non_residue(self.modulus as int),
            self.odd_part as nat,
            self.modulus as int,
        )
    }

    #[verifier::type_invariant]
    pub open spec fn inv(self) -> bool {
        self.wf()
    }

    /// What well-formedness says of the modulus.
    pub proof fn lemma_modulus(self)
        requires
            self.wf(),
        ensures
            is_prime(self.p()),
            2 < self.p() <= u64::MAX,
    {
    }

    /// A field is determined by its modulus.
    pub proof fn lemma_determined_by_modulus(self, other: PrimeField)
        requires
            self.wf(),
            other.wf(),
            self.p() == other.p(),
        ensures
            self == other,
    {
        lemma_odd_part_unique(
            self.odd_part as nat,
            self.two_adicity as nat,
            other.odd_part as nat,
            other.two_adicity as nat,
        );
    }

    /// The field of residues modulo `p`, where `p` is an odd prime.
    pub fn new(p: u64) -> (r: Option<PrimeField>)
        ensures
            r.is_some() <==> is_prime(p as int) && p > 2,
            r matches Some(f) ==> f.p() == p && f.wf(),
    {
        if p <= 2 || !is_prime_u64(p) {
            return None;
        }
        assert((p as int) % 2 != 0);
        let mut q: u64 = (p - 1) / 2;
        let mut s: u32 = 1;
        proof {
            lemma2_to64();
        }
        while q % 2 == 0
            invariant
                p > 2,
                q >= 1,
                1 <= s <= 63,
                p - 1 == q * pow2(s as nat),
            decreases q,
        {
            proof {
                lemma_pow2_unfold((s + 1) as nat);
                assert(q * pow2(s as nat) == (q / 2) * pow2((s + 1) as nat)) by (nonlinear_arith)
                    requires
                        q % 2 == 0,
                        pow2((s + 1) as nat) == 2 * pow2(s as nat),
                ;
                if s == 63 {
                    lemma2_to64_rest();
                    assert((q / 2) * pow2(64) >= pow2(64)) by (nonlinear_arith)
                        requires
                            q / 2 >= 1,
                    ;
                }
            }
            q = q / 2;
            s = s + 1;
        }
        let half: u64 = (p - 1) / 2;
        let mut z: u64 = 1;
        while z < p
            invariant
                p > 2,
                1 <= z <= p,
                half == (p - 1) / 2,
                is_prime(p as int),
                1 <= s <= 63,
                q % 2 == 1,
                p - 1 == q * pow2(s as nat),
                forall|y: int| 1 <= y < z ==> !is_non_residue(y, p as int),
            decreases p - z,
        {
            if power_mod(z, half, p) == p - 1 {
                let root = power_mod(z, q, p);
                proof {
                    let k = pow2((s - 1) as nat);
                    lemma_pow2_unfold(s as nat);
                    assert(q * pow2(s as nat) == 2 * (q * k)) by (nonlinear_arith)
                        requires
                            pow2(s as nat) == 2 * k,
                    ;
                    assert(q * k == half);
                    lemma_pow_mod_of_power(z as int, q as nat, k, p as int);
                    lemma_least_non_residue(z as int, p as int);
                }
                return Some(PrimeField { modulus: p, two_adicity: s, odd_part: q, root });
            }
            z = z + 1;
        }
        proof {
            lemma_non_residue_exists(p as int);
        }
        None
    }

    /// The modulus.
    #[verifier::when_used_as_spec(spec_modulus)]
    pub fn modulus(&self) -> (r: u64)
        ensures
            r == self.spec_modulus(),
            self.wf(),
    {
        proof {
            use_type_invariant(self);
        }
        self.modulus
    }

    /// The residue of `a`.
    pub fn reduce(&self, a: u64) -> (r: u64)
        ensures
            r == (a as int) % self.p(),
            r < self.p(),
    {
        proof {
            use_type_invariant(self);
        }
        a % self.modulus
    }

    /// The sum of two residues.
    pub fn sum(&self, a: u64, b: u64) -> (r: u64)
        ensures
            r == (a + b) % self.p(),
            r < self.p(),
    {
        proof {
            use_type_invariant(self);
        }
        let wide: u128 = a as u128 + b as u128;
        (wide % (self.modulus as u128)) as u64
    }

    /// The residue that adds up to zero with `a`.
    pub fn negate(&self, a: u64) -> (r: u64)
        ensures
            r == (-(a as int)) % self.p(),
            r == (self.p() - (a as int) % self.p()) % self.p(),
            r < self.p(),
    {
        proof {
            use_type_invariant(self);
        }
        let low: u64 = a % self.modulus;
        let r: u64 = (self.modulus - low) % self.modulus;
        proof {
            let p = self.modulus as int;
            lemma_mod_equivalence(p - low, -(a as int), p);
            lemma_fundamental_div_mod(a as int, p);
            assert((p - low) - (-(a as int)) == p * (1 + (a as int) / p)) by (nonlinear_arith)
                requires
                    a as int == p * ((a as int) / p) + low,
            ;
            lemma_mod_multiples_basic(1 + (a as int) / p, p);
            lemma_mul_is_commutative(p, 1 + (a as int) / p);
        }
        r
    }

    /// The product of two residues.
    pub fn product(&self, a: u64, b: u64) -> (r: u64)
        ensures
            r == (a * b) % self.p(),
            r < self.p(),
    {
        proof {
            use_type_invariant(self);
        }
        mul_mod(a, b, self.modulus)
    }

    /// `base` raised to the power `exponent`. The time depends on the
    /// exponent.
    pub fn power(&self, base: u64, exponent: u64) -> (r: u64)
        ensures
            r == pow_mod(base as int, exponent as nat, self.p()),
            r < self.p(),
    {
        proof {
            use_type_invariant(self);
        }
        power_mod(base, exponent, self.modulus)
    }

    /// Whether the residue of `a` is odd.
    pub fn is_odd(&self, a: u64) -> (c: Choice)
        ensures
            choice_byte(c) == ((a as int) % self.p()) % 2,
    {
        let low = self.reduce(a);
        choice_from_u8((low % 2) as u8)
    }

    /// The smaller of the two square roots of the residue of `n`, with a
    /// `Choice` that says whether there is one. Where there is none, the
    /// number beside the `Choice` is zero.
    ///
    /// The number of rounds, and what each round computes, depends on the
    /// modulus alone: both outcomes of a round are computed and one of them
    /// is selected.
    pub fn sqrt(&self, n: u64) -> (res: (u64, Choice))
        ensures
            res.0 < self.p(),
            choice_byte(res.1) == (if is_square_mod((n as int) % self.p(), self.p()) {
                1u8
            } else {
                0u8
            }),
            res.0 == (if is_square_mod((n as int) % self.p(), self.p()) {
                smaller_root(self.p(), (n as int) % self.p())
            } else {
                0
            }),
    {
        proof {
            use_type_invariant(self);
        }
        let p = self.modulus;
        let n0 = n % p;
        proof {
            lemma_pow2_pos(self.two_adicity as nat);
            assert(self.odd_part * pow2(self.two_adicity as nat) >= self.odd_part)
                by (nonlinear_arith)
                requires
                    pow2(self.two_adicity as nat) >= 1,
            ;
        }
        let mut r = power_mod(n0, (self.odd_part + 1) / 2, p);
        let mut t = power_mod(n0, self.odd_part, p);
        let mut c = self.root;
        let mut m = self.two_adicity;
        proof {
            lemma_sqrt_start(
                p as int,
                n0 as int,
                self.odd_part as nat,
                self.two_adicity as nat,
                self.root as int,
            );
        }
        while m > 1
            invariant
                is_prime(p as int),
                p > 2,
                n0 < p,
                sqrt_state(p as int, n0 as int, r as int, t as int, c as int, m as nat),
            decreases m,
        {
            let mut e = t;
            let mut j: u32 = 0;
            proof {
                lemma_pow_mod_one(t as int, p as int);
            }
            while j < m - 2
                invariant
                    p > 2,
                    m >= 2,
                    j <= m - 2,
                    t < p,
                    e < p,
                    e == pow_mod(t as int, pow2(j as nat), p as int),
                decreases m - 2 - j,
            {
                proof {
                    lemma_pow2_unfold((j + 1) as nat);
                    lemma_pow_mod_square(t as int, pow2(j as nat), p as int);
                }
                e = mul_mod(e, e, p);
                j = j + 1;
            }
            proof {
                lemma_sqrt_round(p as int, n0 as int, r as int, t as int, c as int, m as nat, e as int);
            }
            let flip = ct_eq_u64(e, p - 1);
            let rc = mul_mod(r, c, p);
            r = ct_select_u64(r, rc, flip);
            c = mul_mod(c, c, p);
            let tc = mul_mod(t, c, p);
            t = ct_select_u64(t, tc, flip);
            m = m - 1;
        }
        let rr = mul_mod(r, r, p);
        let ok = ct_eq_u64(rr, n0);
        proof {
            lemma_pow_mod_one(t as int, p as int);
            if is_square_mod(n0 as int, p as int) && n0 != 0 {
                assert(t == 1);
                lemma_mul_basics(n0 as int);
                lemma_small_mod(n0 as nat, p as nat);
            }
            if n0 == 0 {
                assert(r * r == 0) by (nonlinear_arith)
                    requires
                        r == 0,
                ;
                lemma_small_mod(0, p as nat);
            }
            if rr == n0 {
                assert(0 <= r < p && ((r as int) * (r as int)) % (p as int) == n0 as int);
            }
        }
        let other = (p - r) % p;
        let larger = ct_gt_u64(r, other);
        let small = ct_select_u64(r, other, larger);
        let root = ct_select_u64(0, small, ok);
        proof {
            if rr == n0 {
                let pi = p as int;
                assert(pi % 2 != 0);
                lemma_negated_root(pi, r as int);
                if r == 0 {
                    lemma_mod_self_0(pi);
                } else {
                    lemma_small_mod((p - r) as nat, p as nat);
                }
                lemma_smaller_root(pi, n0 as int, small as int);
            }
        }
        (root, ok)
    }
}

} // verus!
