//! Facts about primes and residues that the field arithmetic rests on.

use vstd::arithmetic::div_mod::*;
use vstd::arithmetic::mul::*;
use vstd::arithmetic::power2::*;
use vstd::arithmetic::power::*;
use vstd::prelude::*;
use vstd::set_lib::*;

verus! {

/// `p` is a prime number.
pub open spec fn is_prime(p: int) -> bool {
    p >= 2 && forall|d: int| 1 < d < p ==> #[trigger] (p % d) != 0
}

/// `pow(b, e)` reduced modulo `m`.
pub open spec fn pow_mod(b: int, e: nat, m: int) -> int {
    pow(b, e) % m
}

/// `c` is the square of some residue modulo `p`.
pub open spec fn is_square_mod(c: int, p: int) -> bool {
    exists|y: int| 0 <= y < p && #[trigger] ((y * y) % p) == c
}

/// A factor smaller than a prime can be cancelled from a multiple of it.
proof fn lemma_cancel_small_factor(p: int, a: int, b: int)
    requires
        is_prime(p),
        0 < a < p,
        (a * b) % p == 0,
    ensures
        b % p == 0,
    decreases a,
{
    if a == 1 {
        assert(a * b == b) by (nonlinear_arith)
            requires
                a == 1,
        ;
    } else {
        let q = p / a;
        let r = p % a;
        lemma_fundamental_div_mod(p, a);
        assert(p % a != 0);
        assert(0 < r < a);
        let k = (a * b) / p;
        lemma_fundamental_div_mod(a * b, p);
        assert(a * b == p * k);
        assert(r * b == p * (b - q * k)) by (nonlinear_arith)
            requires
                p == a * q + r,
                a * b == p * k,
        ;
        lemma_mod_multiples_basic(b - q * k, p);
        assert(p * (b - q * k) == (b - q * k) * p) by (nonlinear_arith);
        lemma_cancel_small_factor(p, r, b);
    }
}

/// A prime that divides a product divides one of the factors.
pub proof fn lemma_prime_divides_product(p: int, a: int, b: int)
    requires
        is_prime(p),
        (a * b) % p == 0,
    ensures
        a % p == 0 || b % p == 0,
{
    if a % p != 0 {
        lemma_mul_mod_noop_left(a, b, p);
        lemma_cancel_small_factor(p, a % p, b);
    }
}

/// Two residues with the same square are equal or opposite.
pub proof fn lemma_equal_squares(p: int, u: int, v: int)
    requires
        is_prime(p),
        (u * u) % p == (v * v) % p,
    ensures
        u % p == v % p || (u + v) % p == 0,
{
    lemma_mod_equivalence(u * u, v * v, p);
    assert(u * u - v * v == (u - v) * (u + v)) by (nonlinear_arith);
    lemma_prime_divides_product(p, u - v, u + v);
    lemma_mod_equivalence(u, v, p);
}

/// The only square roots of one modulo a prime are `1` and `p - 1`.
pub proof fn lemma_roots_of_one(p: int, e: int)
    requires
        is_prime(p),
        0 <= e < p,
        (e * e) % p == 1,
    ensures
        e == 1 || e == p - 1,
{
    assert(1int * 1int == 1);
    lemma_small_mod(1, p as nat);
    lemma_equal_squares(p, e, 1);
    lemma_small_mod(e as nat, p as nat);
    if e != 1 {
        assert((e + 1) % p == 0);
        if e + 1 < p {
            lemma_small_mod((e + 1) as nat, p as nat);
        }
    }
}

/// The product `1 * 2 * ... * n`.
spec fn factorial(n: nat) -> int
    decreases n,
{
    if n == 0 {
        1
    } else {
        n * factorial((n - 1) as nat)
    }
}

/// The product of the entries of a sequence.
spec fn seq_product(s: Seq<int>) -> int
    decreases s.len(),
{
    if s.len() == 0 {
        1
    } else {
        seq_product(s.drop_last()) * s.last()
    }
}

/// Any entry can be pulled out of a product.
proof fn lemma_product_remove(s: Seq<int>, j: int)
    requires
        0 <= j < s.len(),
    ensures
        seq_product(s) == s[j] * seq_product(s.remove(j)),
    decreases s.len(),
{
    let rest = s.drop_last();
    if j == s.len() - 1 {
        assert(s.remove(j) =~= rest);
        lemma_mul_is_commutative(seq_product(rest), s.last());
    } else {
        lemma_product_remove(rest, j);
        assert(s.remove(j).drop_last() =~= rest.remove(j));
        assert(s.remove(j).last() == s.last());
        lemma_mul_is_associative(s[j], seq_product(rest.remove(j)), s.last());
    }
}

/// A sequence without repetition whose entries lie in `1..bound` has fewer
/// than `bound` entries.
proof fn lemma_pigeonhole(s: Seq<int>, bound: int)
    requires
        bound >= 1,
        forall|i: int| 0 <= i < s.len() ==> 1 <= #[trigger] s[i] < bound,
        forall|i: int, j: int| 0 <= i < j < s.len() ==> s[i] != s[j],
    ensures
        s.len() < bound,
{
    assert(s.no_duplicates()) by {
        assert forall|i: int, j: int|
            0 <= i < s.len() && 0 <= j < s.len() && i != j implies s[i] != s[j] by {
            if i < j {
            } else {
                assert(j < i);
            }
        }
    }
    s.unique_seq_to_set();
    lemma_int_range(1, bound);
    assert(s.to_set().subset_of(set_int_range(1, bound))) by {
        assert forall|v: int| s.to_set().contains(v) implies set_int_range(1, bound).contains(
            v,
        ) by {
            let i = choose|i: int| 0 <= i < s.len() && s[i] == v;
            assert(1 <= s[i] < bound);
        }
    }
    lemma_len_subset(s.to_set(), set_int_range(1, bound));
}

/// A rearrangement of `1, ..., n` has the product `n!`.
proof fn lemma_rearranged_product(s: Seq<int>)
    requires
        forall|i: int| 0 <= i < s.len() ==> 1 <= #[trigger] s[i] <= s.len(),
        forall|i: int, j: int| 0 <= i < j < s.len() ==> s[i] != s[j],
    ensures
        seq_product(s) == factorial(s.len()),
    decreases s.len(),
{
    let n = s.len() as int;
    if n > 0 {
        if forall|i: int| 0 <= i < n ==> #[trigger] s[i] != n {
            lemma_pigeonhole(s, n);
        }
        let j = choose|j: int| 0 <= j < n && #[trigger] s[j] == n;
        let t = s.remove(j);
        assert forall|i: int| 0 <= i < t.len() implies 1 <= #[trigger] t[i] <= t.len() by {
            if i < j {
                assert(t[i] == s[i]);
                assert(s[i] != s[j]);
            } else {
                assert(t[i] == s[i + 1]);
                assert(s[j] != s[i + 1]);
            }
        }
        assert forall|i: int, k: int| 0 <= i < k < t.len() implies t[i] != t[k] by {
            let i0 = if i < j { i } else { i + 1 };
            let k0 = if k < j { k } else { k + 1 };
            assert(t[i] == s[i0]);
            assert(t[k] == s[k0]);
            assert(s[i0] != s[k0]);
        }
        lemma_rearranged_product(t);
        lemma_product_remove(s, j);
    }
}

/// The residues of `a, 2a, ..., na` modulo `p`.
spec fn multiples(a: int, p: int, n: nat) -> Seq<int> {
    Seq::new(n, |k: int| (a * (k + 1)) % p)
}

/// The product of the first `n` multiples of `a` is congruent to `a^n * n!`.
proof fn lemma_multiples_product(a: int, p: int, n: nat)
    requires
        p > 0,
    ensures
        seq_product(multiples(a, p, n)) % p == (pow(a, n) * factorial(n)) % p,
    decreases n,
{
    if n == 0 {
        lemma_pow0(a);
    } else {
        let m = (n - 1) as nat;
        let s = multiples(a, p, n);
        lemma_multiples_product(a, p, m);
        assert(s.drop_last() =~= multiples(a, p, m));
        assert(s.last() == (a * n) % p);
        let prev = seq_product(multiples(a, p, m));
        let full = pow(a, m) * factorial(m);
        assert(seq_product(s) == prev * ((a * n) % p));
        lemma_mul_mod_noop_right(prev, a * n, p);
        lemma_mul_mod_noop_left(prev, a * n, p);
        lemma_mul_mod_noop_left(full, a * n, p);
        assert(seq_product(s) % p == (full * (a * n)) % p);
        reveal_with_fuel(pow, 2);
        assert(pow(a, n) == a * pow(a, m));
        assert(full * (a * n) == pow(a, n) * factorial(n)) by (nonlinear_arith)
            requires
                full == pow(a, m) * factorial(m),
                pow(a, n) == a * pow(a, m),
                factorial(n) == n * factorial(m),
        ;
    }
}

/// A prime does not divide the factorial of a smaller number.
proof fn lemma_factorial_coprime(p: int, n: nat)
    requires
        is_prime(p),
        n < p,
    ensures
        factorial(n) % p != 0,
    decreases n,
{
    if n == 0 {
        lemma_small_mod(1, p as nat);
    } else {
        lemma_factorial_coprime(p, (n - 1) as nat);
        lemma_small_mod(n, p as nat);
        if factorial(n) % p == 0 {
            lemma_prime_divides_product(p, n as int, factorial((n - 1) as nat));
        }
    }
}

/// Fermat's little theorem: `a^(p-1)` is congruent to one modulo a prime `p`
/// that does not divide `a`.
pub proof fn lemma_fermat_little(a: int, p: int)
    requires
        is_prime(p),
        a % p != 0,
    ensures
        pow(a, (p - 1) as nat) % p == 1,
{
    let n = (p - 1) as nat;
    let s = multiples(a, p, n);
    assert forall|i: int| 0 <= i < s.len() implies 1 <= #[trigger] s[i] <= s.len() by {
        lemma_small_mod((i + 1) as nat, p as nat);
        if (a * (i + 1)) % p == 0 {
            lemma_prime_divides_product(p, a, i + 1);
        }
    }
    assert forall|i: int, j: int| 0 <= i < j < s.len() implies s[i] != s[j] by {
        if (a * (i + 1)) % p == (a * (j + 1)) % p {
            lemma_mod_equivalence(a * (j + 1), a * (i + 1), p);
            assert(a * (j + 1) - a * (i + 1) == a * (j - i)) by (nonlinear_arith);
            lemma_prime_divides_product(p, a, j - i);
            lemma_small_mod((j - i) as nat, p as nat);
        }
    }
    lemma_rearranged_product(s);
    lemma_multiples_product(a, p, n);
    let f = factorial(n);
    let w = pow(a, n);
    assert(f % p == (w * f) % p);
    lemma_mod_equivalence(w * f, f, p);
    assert(w * f - f == (w - 1) * f) by (nonlinear_arith);
    lemma_factorial_coprime(p, n);
    lemma_prime_divides_product(p, w - 1, f);
    lemma_mod_equivalence(w, 1, p);
    lemma_small_mod(1, p as nat);
}

/// Squaring a power doubles the exponent.
pub proof fn lemma_pow_mod_square(b: int, k: nat, p: int)
    requires
        p > 0,
    ensures
        pow_mod(b, 2 * k, p) == (pow_mod(b, k, p) * pow_mod(b, k, p)) % p,
{
    lemma_pow_adds(b, k, k);
    lemma_mul_mod_noop(pow(b, k), pow(b, k), p);
}

/// A power of a reduced square is a power of the base with twice the exponent.
pub proof fn lemma_pow_mod_of_square(b: int, k: nat, p: int)
    requires
        p > 0,
    ensures
        pow_mod((b * b) % p, k, p) == pow_mod(b, 2 * k, p),
{
    lemma_pow_mod_noop(b * b, k, p);
    lemma_square_is_pow2(b);
    lemma_pow_multiplies(b, 2, k);
}

/// A power of a reduced power is a power of the base with the product of the
/// exponents.
pub proof fn lemma_pow_mod_of_power(b: int, j: nat, k: nat, p: int)
    requires
        p > 0,
    ensures
        pow_mod(pow_mod(b, j, p), k, p) == pow_mod(b, j * k, p),
{
    lemma_pow_mod_noop(pow(b, j), k, p);
    lemma_pow_multiplies(b, j, k);
}

/// The power of a reduced product is the product of the powers.
pub proof fn lemma_pow_mod_product(a: int, b: int, e: nat, p: int)
    requires
        p > 0,
    ensures
        pow_mod((a * b) % p, e, p) == (pow_mod(a, e, p) * pow_mod(b, e, p)) % p,
{
    lemma_pow_mod_noop(a * b, e, p);
    lemma_pow_distributes(a, b, e);
    lemma_mul_mod_noop(pow(a, e), pow(b, e), p);
}

/// The first power of a residue is the residue.
pub proof fn lemma_pow_mod_one(b: int, p: int)
    requires
        0 <= b < p,
    ensures
        pow_mod(b, 1, p) == b,
        pow_mod(b, pow2(0), p) == b,
{
    lemma_pow1(b);
    lemma_small_mod(b as nat, p as nat);
    lemma2_to64();
}

/// `p - 1` is a square root of one.
pub proof fn lemma_minus_one_squared(p: int)
    requires
        p > 1,
    ensures
        ((p - 1) * (p - 1)) % p == 1,
{
    assert((p - 1) * (p - 1) == (p - 2) * p + 1) by (nonlinear_arith);
    lemma_mod_multiples_vanish(p - 2, 1, p);
    lemma_small_mod(1, p as nat);
}

/// Euler's criterion, in the direction that the square root needs: a square
/// other than zero, raised to the power `(p - 1) / 2`, gives one.
pub proof fn lemma_square_has_euler_power_one(n: int, p: int)
    requires
        is_prime(p),
        p > 2,
        0 < n < p,
        is_square_mod(n, p),
    ensures
        pow_mod(n, ((p - 1) / 2) as nat, p) == 1,
{
    let w = choose|w: int| 0 <= w < p && #[trigger] ((w * w) % p) == n;
    let k = ((p - 1) / 2) as nat;
    assert(p % 2 != 0);
    assert(2 * k == p - 1);
    if w == 0 {
        assert(w * w == 0);
        lemma_small_mod(0, p as nat);
    }
    lemma_small_mod(w as nat, p as nat);
    lemma_pow_mod_of_square(w, k, p);
    lemma_fermat_little(w, p);
}

/// A residue has at most the two square roots `y` and `p - y`.
pub proof fn lemma_two_roots(p: int, y: int, z: int)
    requires
        is_prime(p),
        0 <= y < p,
        0 <= z < p,
        (y * y) % p == (z * z) % p,
    ensures
        z == y || z == (p - y) % p,
{
    lemma_equal_squares(p, z, y);
    lemma_small_mod(y as nat, p as nat);
    lemma_small_mod(z as nat, p as nat);
    if z != y {
        assert((z + y) % p == 0);
        if y == 0 {
            assert(z % p == 0);
        } else {
            lemma_small_mod((p - y) as nat, p as nat);
            if z + y < p {
                lemma_small_mod((z + y) as nat, p as nat);
            } else if z + y > p {
                lemma_mod_sub_multiples_vanish(z + y, p);
                lemma_small_mod((z + y - p) as nat, p as nat);
                assert((-p + (z + y)) % p == (z + y) % p);
            }
        }
    }
}

/// The negation of a square root is a square root.
pub proof fn lemma_negated_root(p: int, y: int)
    requires
        p > 0,
    ensures
        ((p - y) * (p - y)) % p == (y * y) % p,
{
    assert((p - y) * (p - y) == (p - 2 * y) * p + y * y) by (nonlinear_arith);
    lemma_mod_multiples_vanish(p - 2 * y, y * y, p);
}

/// The square root of `c` modulo `p` whose parity is as `odd` says, or zero
/// if `c` is zero.
pub open spec fn root_with_parity(p: int, c: int, odd: bool) -> int {
    choose|y: int|
        0 <= y < p && #[trigger] ((y * y) % p) == c && (y != 0 ==> (y % 2 == 1) == odd)
}

/// The smaller of the two square roots of `c` modulo `p`.
pub open spec fn smaller_root(p: int, c: int) -> int {
    choose|y: int| 0 <= y < p && #[trigger] ((y * y) % p) == c && 2 * y < p
}

/// A root with the wanted parity is the root that `root_with_parity` names.
pub proof fn lemma_root_with_parity(p: int, c: int, odd: bool, y: int)
    requires
        is_prime(p),
        p > 2,
        0 <= y < p,
        (y * y) % p == c,
        y != 0 ==> (y % 2 == 1) == odd,
    ensures
        root_with_parity(p, c, odd) == y,
{
    let z = root_with_parity(p, c, odd);
    assert(0 <= z < p && (z * z) % p == c && (z != 0 ==> (z % 2 == 1) == odd));
    lemma_two_roots(p, y, z);
    assert(p % 2 != 0);
    if z != y {
        if y == 0 {
            lemma_mod_self_0(p);
        } else {
            lemma_small_mod((p - y) as nat, p as nat);
        }
    }
}

/// A root that is not larger than its negation is the root that
/// `smaller_root` names.
pub proof fn lemma_smaller_root(p: int, c: int, y: int)
    requires
        is_prime(p),
        p > 2,
        0 <= y < p,
        (y * y) % p == c,
        2 * y < p,
    ensures
        smaller_root(p, c) == y,
{
    let z = smaller_root(p, c);
    assert(0 <= z < p && (z * z) % p == c && 2 * z < p);
    lemma_two_roots(p, y, z);
    if z != y {
        if y == 0 {
            lemma_mod_self_0(p);
        } else {
            lemma_small_mod((p - y) as nat, p as nat);
        }
    }
}

/// A square has a root of either parity, unless it is zero; `root_with_parity`
/// names it.
pub proof fn lemma_root_with_parity_exists(p: int, c: int, odd: bool)
    requires
        is_prime(p),
        p > 2,
        is_square_mod(c, p),
    ensures
        0 <= root_with_parity(p, c, odd) < p,
        (root_with_parity(p, c, odd) * root_with_parity(p, c, odd)) % p == c,
        root_with_parity(p, c, odd) != 0 ==> (root_with_parity(p, c, odd) % 2 == 1) == odd,
{
    let w = choose|w: int| 0 <= w < p && #[trigger] ((w * w) % p) == c;
    assert(p % 2 != 0);
    if w == 0 || (w % 2 == 1) == odd {
        lemma_root_with_parity(p, c, odd, w);
    } else {
        lemma_negated_root(p, w);
        lemma_root_with_parity(p, c, odd, p - w);
    }
}

/// A square has a root that is not larger than its negation; `smaller_root`
/// names it.
pub proof fn lemma_smaller_root_exists(p: int, c: int)
    requires
        is_prime(p),
        p > 2,
        is_square_mod(c, p),
    ensures
        0 <= smaller_root(p, c) < p,
        (smaller_root(p, c) * smaller_root(p, c)) % p == c,
        2 * smaller_root(p, c) < p,
{
    let w = choose|w: int| 0 <= w < p && #[trigger] ((w * w) % p) == c;
    assert(p % 2 != 0);
    if 2 * w < p {
        lemma_smaller_root(p, c, w);
    } else {
        lemma_negated_root(p, w);
        lemma_smaller_root(p, c, p - w);
    }
}

/// A number has one decomposition into an odd number and a power of two.
pub proof fn lemma_odd_part_unique(q1: nat, s1: nat, q2: nat, s2: nat)
    requires
        q1 % 2 == 1,
        q2 % 2 == 1,
        q1 * pow2(s1) == q2 * pow2(s2),
    ensures
        q1 == q2,
        s1 == s2,
    decreases s1,
{
    lemma2_to64();
    if s1 == 0 {
        if s2 > 0 {
            lemma_pow2_unfold(s2);
            assert(q2 * pow2(s2) == 2 * (q2 * pow2((s2 - 1) as nat))) by (nonlinear_arith)
                requires
                    pow2(s2) == 2 * pow2((s2 - 1) as nat),
            ;
        }
        assert(q1 * 1 == q1);
        assert(q2 * 1 == q2);
    } else {
        lemma_pow2_unfold(s1);
        assert(q1 * pow2(s1) == 2 * (q1 * pow2((s1 - 1) as nat))) by (nonlinear_arith)
            requires
                pow2(s1) == 2 * pow2((s1 - 1) as nat),
        ;
        if s2 == 0 {
            assert(q2 * 1 == q2);
        } else {
            lemma_pow2_unfold(s2);
            assert(q2 * pow2(s2) == 2 * (q2 * pow2((s2 - 1) as nat))) by (nonlinear_arith)
                requires
                    pow2(s2) == 2 * pow2((s2 - 1) as nat),
            ;
            lemma_odd_part_unique(q1, (s1 - 1) as nat, q2, (s2 - 1) as nat);
        }
    }
}

/// The value at `x` of the polynomial with the coefficients `f`, the leading
/// one first.
spec fn poly_eval(f: Seq<int>, x: int) -> int
    decreases f.len(),
{
    if f.len() == 0 {
        0
    } else {
        poly_eval(f.drop_last(), x) * x + f.last()
    }
}

/// The quotient of the polynomial `f` by `x - r`: its coefficients are the
/// values at `r` of the leading parts of `f`.
spec fn poly_quotient(f: Seq<int>, r: int) -> Seq<int> {
    Seq::new((f.len() - 1) as nat, |i: int| poly_eval(f.take(i + 1), r))
}

/// Division with remainder by `x - r`: the remainder is the value at `r`.
proof fn lemma_poly_division(f: Seq<int>, r: int, x: int)
    requires
        f.len() >= 1,
    ensures
        poly_eval(f, x) == (x - r) * poly_eval(poly_quotient(f, r), x) + poly_eval(f, r),
    decreases f.len(),
{
    let head = f.drop_last();
    let g = poly_quotient(f, r);
    if f.len() == 1 {
        assert(poly_eval(head, x) == 0);
        assert(poly_eval(head, r) == 0);
        assert(poly_eval(g, x) == 0);
        assert(poly_eval(head, x) * x == 0) by (nonlinear_arith)
            requires
                poly_eval(head, x) == 0,
        ;
        assert(poly_eval(head, r) * r == 0) by (nonlinear_arith)
            requires
                poly_eval(head, r) == 0,
        ;
        assert((x - r) * poly_eval(g, x) == 0) by (nonlinear_arith)
            requires
                poly_eval(g, x) == 0,
        ;
    } else {
        let g0 = poly_quotient(head, r);
        lemma_poly_division(head, r, x);
        assert(g.drop_last() =~= g0) by {
            assert forall|i: int| 0 <= i < g0.len() implies g.drop_last()[i] == g0[i] by {
                assert(f.take(i + 1) =~= head.take(i + 1));
            }
        }
        assert(g.last() == poly_eval(head, r)) by {
            assert(f.take(f.len() - 1) =~= head);
        }
        let a = f.last();
        let q0 = poly_eval(g0, x);
        let hr = poly_eval(head, r);
        let hx = poly_eval(head, x);
        assert(poly_eval(g, x) == q0 * x + hr);
        assert(hx * x + a == (x - r) * (q0 * x + hr) + (hr * r + a)) by (nonlinear_arith)
            requires
                hx == (x - r) * q0 + hr,
        ;
    }
}

/// Lagrange's bound: a polynomial whose leading coefficient a prime does not
/// divide has no more roots modulo the prime than its degree.
proof fn lemma_root_bound(p: int, f: Seq<int>, roots: Seq<int>)
    requires
        is_prime(p),
        f.len() >= 1,
        f[0] % p != 0,
        forall|i: int| 0 <= i < roots.len() ==> 0 <= #[trigger] roots[i] < p,
        forall|i: int| 0 <= i < roots.len() ==> poly_eval(f, #[trigger] roots[i]) % p == 0,
        forall|i: int, j: int| 0 <= i < j < roots.len() ==> roots[i] != roots[j],
    ensures
        roots.len() <= f.len() - 1,
    decreases f.len(),
{
    if roots.len() > 0 {
        let r = roots.last();
        if f.len() == 1 {
            assert(poly_eval(f.drop_last(), r) == 0);
            assert(poly_eval(f.drop_last(), r) * r == 0) by (nonlinear_arith)
                requires
                    poly_eval(f.drop_last(), r) == 0,
            ;
            assert(poly_eval(f, r) == f[0]);
            assert(poly_eval(f, roots[roots.len() - 1]) % p == 0);
        } else {
            let g = poly_quotient(f, r);
            let rest = roots.drop_last();
            assert(g[0] == f[0]) by {
                let lead = f.take(1);
                assert(lead.drop_last() =~= Seq::<int>::empty());
                assert(poly_eval(lead.drop_last(), r) == 0);
                assert(poly_eval(lead.drop_last(), r) * r == 0) by (nonlinear_arith)
                    requires
                        poly_eval(lead.drop_last(), r) == 0,
                ;
                assert(lead.last() == f[0]);
            }
            assert(poly_eval(f, roots[roots.len() - 1]) % p == 0);
            assert forall|i: int| 0 <= i < rest.len() implies poly_eval(g, #[trigger] rest[i]) % p
                == 0 by {
                let x = rest[i];
                assert(x == roots[i]);
                assert(roots[i] != roots[roots.len() - 1]);
                lemma_poly_division(f, r, x);
                let fx = poly_eval(f, x);
                let fr = poly_eval(f, r);
                let gx = poly_eval(g, x);
                assert(fx % p == 0);
                assert(fr % p == 0);
                lemma_mod_equivalence(fx, fr, p);
                assert(((x - r) * gx) % p == 0);
                lemma_prime_divides_product(p, x - r, gx);
                if (x - r) % p == 0 {
                    lemma_mod_equivalence(x, r, p);
                    lemma_small_mod(x as nat, p as nat);
                    lemma_small_mod(r as nat, p as nat);
                }
            }
            lemma_root_bound(p, g, rest);
        }
    }
}

/// The coefficients of `x^h - 1`.
spec fn power_minus_one(h: nat) -> Seq<int> {
    Seq::new(
        h + 1,
        |i: int|
            if i == 0 {
                1int
            } else if i == h {
                -1int
            } else {
                0int
            },
    )
}

/// The leading `k + 1` coefficients of `x^h - 1` are those of `x^k`.
proof fn lemma_power_prefix(h: nat, k: nat, x: int)
    requires
        k < h,
    ensures
        poly_eval(power_minus_one(h).take(k as int + 1), x) == pow(x, k),
    decreases k,
{
    let f = power_minus_one(h).take(k as int + 1);
    if k == 0 {
        assert(f.drop_last() =~= Seq::<int>::empty());
        assert(poly_eval(f.drop_last(), x) == 0);
        assert(poly_eval(f.drop_last(), x) * x == 0) by (nonlinear_arith)
            requires
                poly_eval(f.drop_last(), x) == 0,
        ;
        lemma_pow0(x);
    } else {
        lemma_power_prefix(h, (k - 1) as nat, x);
        assert(f.drop_last() =~= power_minus_one(h).take(k as int));
        assert(f.last() == 0);
        reveal_with_fuel(pow, 2);
        lemma_mul_is_commutative(pow(x, (k - 1) as nat), x);
    }
}

/// The polynomial with the coefficients `power_minus_one(h)` is `x^h - 1`.
proof fn lemma_power_minus_one(h: nat, x: int)
    requires
        h >= 1,
    ensures
        poly_eval(power_minus_one(h), x) == pow(x, h) - 1,
{
    let f = power_minus_one(h);
    lemma_power_prefix(h, (h - 1) as nat, x);
    assert(f.drop_last() =~= f.take(h as int));
    assert(f.last() == -1);
    reveal_with_fuel(pow, 2);
    lemma_mul_is_commutative(pow(x, (h - 1) as nat), x);
}

/// The residue `z` of `p` fails Euler's criterion: raised to the power
/// `(p - 1) / 2` it gives `p - 1`.
pub open spec fn is_non_residue(z: int, p: int) -> bool {
    1 <= z < p && pow_mod(z, ((p - 1) / 2) as nat, p) == p - 1
}

/// Every odd prime has a residue that fails Euler's criterion.
pub proof fn lemma_non_residue_exists(p: int)
    requires
        is_prime(p),
        p > 2,
    ensures
        exists|z: int| is_non_residue(z, p),
{
    let h = ((p - 1) / 2) as nat;
    assert(p % 2 != 0);
    assert(2 * h == p - 1);
    if forall|z: int| 1 <= z < p ==> #[trigger] pow_mod(z, h, p) == 1 {
        let f = power_minus_one(h);
        let roots = Seq::new((p - 1) as nat, |i: int| i + 1);
        lemma_small_mod(1, p as nat);
        assert forall|i: int| 0 <= i < roots.len() implies poly_eval(f, #[trigger] roots[i]) % p
            == 0 by {
            let z = roots[i];
            lemma_power_minus_one(h, z);
            assert(pow_mod(z, h, p) == 1);
            lemma_mod_equivalence(pow(z, h), 1, p);
        }
        lemma_root_bound(p, f, roots);
        assert(false);
    }
    let z = choose|z: int| 1 <= z < p && #[trigger] pow_mod(z, h, p) != 1;
    lemma_small_mod(z as nat, p as nat);
    lemma_fermat_little(z, p);
    lemma_pow_mod_square(z, h, p);
    lemma_mod_bound(pow(z, h), p);
    lemma_roots_of_one(p, pow_mod(z, h, p));
    assert(is_non_residue(z, p));
}

} // verus!
