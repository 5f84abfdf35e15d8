use vstd::prelude::*;
use vstd::arithmetic::power2::{
    pow2, lemma2_to64, lemma_pow2_adds, lemma_pow2_pos, lemma_pow2_unfold,
    lemma_pow2_strictly_increases,
};
use vstd::arithmetic::div_mod::{lemma_fundamental_div_mod, lemma_mod_breakdown};
use vstd::bits::lemma_u64_shl_is_mul;

use crate::bits::{
    bits_value, unary_spec, unsigned_spec, parsed, lemma_bits_value_bound, lemma_run_length,
    run_length,
};
use crate::bitstream::{BitstreamReader, reads_on};
use crate::error::Error;

verus! {

/// The signed value that a folded unsigned value stands for: even values are the
/// non-negative numbers, odd values the negative ones.
pub open spec fn unfold_sign(raw: nat) -> int {
    if raw % 2 == 0 {
        (raw / 2) as int
    } else {
        -((raw / 2) as int) - 1
    }
}

/// Decoding one Rice-coded residual with parameter `k`: a unary quotient ended by
/// a 1 bit, then a `k`-bit remainder. A composite that does not fit 32 bits is
/// malformed.
pub open spec fn rice_spec(bits: Seq<bool>, pos: nat, k: nat) -> Result<(i32, nat), Error> {
    match unary_spec(bits, pos, true) {
        Ok((q, p)) => match unsigned_spec(bits, p, k) {
            Ok((r, p2)) => {
                let raw = q as nat * pow2(k) + r as nat;
                if raw >= pow2(32) {
                    Err(Error::Content)
                } else {
                    Ok((unfold_sign(raw) as i32, p2))
                }
            },
            Err(e) => Err(e),
        },
        Err(e) => Err(e),
    }
}

/// Reads one Rice-coded signed residual with encoding parameter `encoding_parameter`.
pub fn read_rice<R: BitstreamReader>(reader: &mut R, encoding_parameter: u8) -> (r: Result<i32, Error>)
    requires
        old(reader).wf(),
        encoding_parameter <= 30,
    ensures
        reads_on(*old(reader), *final(reader)),
        parsed(
            r,
            rice_spec(old(reader).bits(), old(reader).position(), encoding_parameter as nat),
            final(reader).position(),
        ),
{
    let ghost bits = reader.bits();
    let ghost p = (reader.position() + run_length(bits, reader.position(), true) + 1) as nat;
    let quotient = reader.read_unary(true)?;
    let remainder = reader.read_unsigned(encoding_parameter)?;
    let k = encoding_parameter as u64;
    proof {
        lemma_bits_value_bound(bits, p, k as nat);
        lemma2_to64();
        lemma_pow2_strictly_increases(k as nat, 64);
        lemma_pow2_strictly_increases((32 - k) as nat, 64);
        lemma_pow2_adds((32 - k) as nat, k as nat);
        lemma_u64_shl_is_mul(1, (32 - k) as u64);
        lemma_u64_shl_is_mul(1, k);
    }
    let limit: u64 = 1u64 << (32 - k);
    let scale: u64 = 1u64 << k;
    let rem = remainder as u64;
    proof {
        let big = pow2(32) as int;
        if quotient >= limit {
            assert(quotient * scale + rem >= big) by (nonlinear_arith)
                requires
                    quotient >= limit,
                    limit * scale == big,
                    rem >= 0,
            ;
        } else {
            assert(quotient * scale + rem < big) by (nonlinear_arith)
                requires
                    quotient < limit,
                    limit * scale == big,
                    rem < scale,
                    quotient >= 0,
            ;
        }
    }
    if quotient >= limit {
        return Err(Error::Content);
    }
    let raw: u64 = quotient * scale + rem;
    if raw % 2 == 1 {
        Ok(-((raw / 2) as i32) - 1)
    } else {
        Ok((raw / 2) as i32)
    }
}

/// The unsigned value that a signed residual folds to.
pub open spec fn fold_sign(s: int) -> nat {
    if s >= 0 {
        (2 * s) as nat
    } else {
        (-2 * s - 1) as nat
    }
}

/// The low `n` bits of `v`, most significant first.
pub open spec fn nat_bits(v: nat, n: nat) -> Seq<bool>
    decreases n,
{
    if n == 0 {
        Seq::empty()
    } else {
        nat_bits(v / 2, (n - 1) as nat).push(v % 2 == 1)
    }
}

/// The Rice code of `s` with parameter `k`: the quotient in unary (zeros ended by
/// a one), then the remainder in `k` bits.
pub open spec fn rice_encode(s: int, k: nat) -> Seq<bool> {
    let u = fold_sign(s);
    Seq::new(u / pow2(k), |i: int| false).push(true) + nat_bits(u, k)
}

proof fn lemma_nat_bits_len(v: nat, n: nat)
    ensures
        nat_bits(v, n).len() == n,
    decreases n,
{
    if n > 0 {
        lemma_nat_bits_len(v / 2, (n - 1) as nat);
    }
}

proof fn lemma_nat_bits(bits: Seq<bool>, p: nat, v: nat, n: nat)
    requires
        p + n <= bits.len(),
        forall|j: int| 0 <= j < n ==> bits[p + j] == #[trigger] nat_bits(v, n)[j],
    ensures
        bits_value(bits, p, n) == v % pow2(n),
    decreases n,
{
    lemma_nat_bits_len(v, n);
    if n == 0 {
        lemma2_to64();
    } else {
        let prev = nat_bits(v / 2, (n - 1) as nat);
        lemma_nat_bits_len(v / 2, (n - 1) as nat);
        assert(nat_bits(v, n) == prev.push(v % 2 == 1));
        assert forall|j: int| 0 <= j < n - 1 implies bits[p + j] == #[trigger] prev[j] by {
            assert(nat_bits(v, n)[j] == prev[j]);
        }
        lemma_nat_bits(bits, p, v / 2, (n - 1) as nat);
        assert(bits[p + n - 1] == nat_bits(v, n)[n - 1]);
        lemma_pow2_unfold(n);
        lemma_pow2_pos((n - 1) as nat);
        lemma_mod_breakdown(v as int, 2, pow2((n - 1) as nat) as int);
    }
}

/// Rice decoding inverts Rice encoding: wherever the code of a residual `s` in
/// `[-(2^31 - 1), 2^31 - 1]` with a parameter up to 30 stands in a stream, the
/// decoder reads back `s` and stops right after the code.
pub proof fn lemma_rice_round_trip(bits: Seq<bool>, pos: nat, s: int, k: nat)
    requires
        -0x7FFF_FFFF <= s <= 0x7FFF_FFFF,
        k <= 30,
        pos + rice_encode(s, k).len() <= bits.len(),
        bits.subrange(pos as int, (pos + rice_encode(s, k).len()) as int) == rice_encode(s, k),
    ensures
        rice_spec(bits, pos, k) == Ok::<(i32, nat), Error>((s as i32, pos + rice_encode(s, k).len())),
{
    let enc = rice_encode(s, k);
    let u = fold_sign(s);
    lemma_pow2_pos(k);
    let q = u / pow2(k);
    let nb = nat_bits(u, k);
    lemma_nat_bits_len(u, k);
    let zeros = Seq::new(q, |i: int| false).push(true);
    assert(enc == zeros + nb);
    assert forall|j: int| 0 <= j < enc.len() implies bits[pos + j] == #[trigger] enc[j] by {
        assert(bits.subrange(pos as int, (pos + enc.len()) as int)[j] == bits[pos + j]);
    }
    // The quotient.
    assert forall|j: int| pos <= j < pos + q implies bits[j] != true by {
        assert(enc[j - pos] == zeros[j - pos]);
    }
    assert(enc[q as int] == zeros[q as int]);
    assert(bits[(pos + q) as int] == true);
    lemma_run_length(bits, pos, q, true);
    // The remainder.
    let p = pos + q + 1;
    assert forall|j: int| 0 <= j < k implies bits[p + j] == #[trigger] nat_bits(u, k)[j] by {
        assert(enc[q + 1 + j] == nb[j]);
        assert(bits[pos + (q + 1 + j)] == enc[q + 1 + j]);
    }
    lemma_nat_bits(bits, p, u, k);
    lemma2_to64();
    lemma_pow2_strictly_increases(k, 32);
    lemma_fundamental_div_mod(u as int, pow2(k) as int);
    assert(q <= u) by (nonlinear_arith)
        requires
            q == u / pow2(k),
            pow2(k) > 0,
    ;
    lemma_bits_value_bound(bits, p, k);
    lemma_pow2_strictly_increases(k, 128);
    assert(q as nat * pow2(k) + (bits_value(bits, p, k) as u128) as nat == u) by (nonlinear_arith)
        requires
            u == pow2(k) * q + u % pow2(k),
            bits_value(bits, p, k) == u % pow2(k),
            (bits_value(bits, p, k) as u128) as nat == bits_value(bits, p, k),
    ;
}

} // verus!
