//! Big-endian byte strings of fixed width and the numbers they stand for.

use vstd::arithmetic::power::*;
use vstd::prelude::*;

verus! {

/// The number that a big-endian byte string stands for.
pub open spec fn be_value(s: Seq<u8>) -> nat
    decreases s.len(),
{
    if s.len() == 0 {
        0
    } else {
        be_value(s.drop_last()) * 256 + s.last() as nat
    }
}

/// The last `len` base-256 digits of `v`, most significant first.
pub open spec fn be_bytes(v: nat, len: nat) -> Seq<u8>
    decreases len,
{
    if len == 0 {
        Seq::empty()
    } else {
        be_bytes(v / 256, (len - 1) as nat).push((v % 256) as u8)
    }
}

/// The number of values that `len` bytes can hold.
pub open spec fn radix_power(len: nat) -> int {
    pow(256, len)
}

/// The first few powers of 256.
pub proof fn lemma_radix_powers()
    ensures
        radix_power(0) == 1,
        radix_power(1) == 0x100,
        radix_power(2) == 0x1_0000,
        radix_power(3) == 0x100_0000,
        radix_power(4) == 0x1_0000_0000,
        radix_power(5) == 0x100_0000_0000,
        radix_power(6) == 0x1_0000_0000_0000,
        radix_power(7) == 0x100_0000_0000_0000,
        radix_power(8) == 0x1_0000_0000_0000_0000,
{
    reveal_with_fuel(pow, 10);
}

/// Each further byte multiplies the number of values by 256.
pub proof fn lemma_radix_power_step(len: nat)
    ensures
        radix_power(len + 1) == 256 * radix_power(len),
        radix_power(len) >= 1,
{
    reveal_with_fuel(pow, 2);
    lemma_pow_positive(256, len);
}

/// `be_bytes` gives as many bytes as it is asked for.
pub proof fn lemma_be_bytes_len(v: nat, len: nat)
    ensures
        be_bytes(v, len).len() == len,
    decreases len,
{
    if len > 0 {
        lemma_be_bytes_len(v / 256, (len - 1) as nat);
    }
}

/// A byte string of length `n` stands for a number below `256^n`.
pub proof fn lemma_be_value_bound(s: Seq<u8>)
    ensures
        be_value(s) < radix_power(s.len()),
    decreases s.len(),
{
    if s.len() == 0 {
        lemma_radix_powers();
    } else {
        lemma_be_value_bound(s.drop_last());
        lemma_radix_power_step((s.len() - 1) as nat);
    }
}

/// Encoding a number that fits and decoding the bytes gives the number back.
pub proof fn lemma_be_value_of_bytes(v: nat, len: nat)
    requires
        v < radix_power(len),
    ensures
        be_value(be_bytes(v, len)) == v,
    decreases len,
{
    if len == 0 {
        lemma_radix_powers();
    } else {
        let rest = (len - 1) as nat;
        lemma_radix_power_step(rest);
        lemma_be_value_of_bytes(v / 256, rest);
        let s = be_bytes(v, len);
        assert(s.drop_last() =~= be_bytes(v / 256, rest));
        assert(s.last() == (v % 256) as u8);
    }
}

/// Decoding a byte string and encoding the number to the same width gives
/// the bytes back.
pub proof fn lemma_be_bytes_of_value(s: Seq<u8>)
    ensures
        be_bytes(be_value(s), s.len()) == s,
    decreases s.len(),
{
    if s.len() == 0 {
        assert(be_bytes(be_value(s), 0) =~= s);
    } else {
        let v = be_value(s);
        lemma_be_bytes_of_value(s.drop_last());
        assert(v / 256 == be_value(s.drop_last()));
        assert(v % 256 == s.last() as nat);
        assert(be_bytes(v, s.len()) =~= s);
    }
}

/// The number that at most eight big-endian bytes stand for.
pub fn decode(bytes: &[u8]) -> (v: u64)
    requires
        bytes.len() <= 8,
    ensures
        v == be_value(bytes@),
{
    let mut acc: u64 = 0;
    let mut i: usize = 0;
    while i < bytes.len()
        invariant
            bytes.len() <= 8,
            i <= bytes.len(),
            acc == be_value(bytes@.take(i as int)),
        decreases bytes.len() - i,
    {
        proof {
            let head = bytes@.take(i as int);
            let next = bytes@.take(i + 1);
            assert(next.drop_last() =~= head);
            assert(next.last() == bytes@[i as int]);
            lemma_be_value_bound(head);
            lemma_be_value_bound(next);
            lemma_radix_powers();
            if i < 7 {
                lemma_pow_strictly_increases(256, (i + 1) as nat, 8);
            }
        }
        acc = acc * 256 + bytes[i] as u64;
        i = i + 1;
    }
    proof {
        assert(bytes@.take(i as int) =~= bytes@);
    }
    acc
}

/// The last `len` base-256 digits of `v`, most significant first.
pub fn encode(v: u64, len: usize) -> (out: Vec<u8>)
    ensures
        out@ == be_bytes(v as nat, len as nat),
{
    let mut out: Vec<u8> = Vec::new();
    let mut k: usize = 0;
    while k < len
        invariant
            k <= len,
            out@.len() == k,
        decreases len - k,
    {
        out.push(0u8);
        k = k + 1;
    }
    let mut x: u64 = v;
    let mut i: usize = len;
    proof {
        lemma_be_bytes_len(v as nat, len as nat);
        assert(be_bytes(v as nat, len as nat) =~= be_bytes(x as nat, i as nat) + out@.subrange(
            i as int,
            len as int,
        ));
    }
    while i > 0
        invariant
            i <= len,
            out@.len() == len,
            be_bytes(v as nat, len as nat) == be_bytes(x as nat, i as nat) + out@.subrange(
                i as int,
                len as int,
            ),
        decreases i,
    {
        let ghost before = out@;
        let digit: u8 = (x % 256) as u8;
        out.set(i - 1, digit);
        proof {
            lemma_be_bytes_len((x / 256) as nat, (i - 1) as nat);
            assert(out@.subrange(i - 1, len as int) =~= seq![digit] + before.subrange(
                i as int,
                len as int,
            ));
            assert(be_bytes(x as nat, i as nat) + before.subrange(i as int, len as int)
                =~= be_bytes((x / 256) as nat, (i - 1) as nat) + out@.subrange(
                i - 1,
                len as int,
            ));
        }
        x = x / 256;
        i = i - 1;
    }
    proof {
        assert(be_bytes(x as nat, 0) + out@.subrange(0, len as int) =~= out@);
    }
    out
}

} // verus!
