use vstd::prelude::*;
use vstd::arithmetic::power2::*;

use crate::error::Error;

verus! {

/// The unsigned value of the `n` bits starting at `pos`, most significant first.
pub open spec fn bits_value(bits: Seq<bool>, pos: nat, n: nat) -> nat
    decreases n,
{
    if n == 0 {
        0
    } else {
        2 * bits_value(bits, pos, (n - 1) as nat) + (if bits[pos + n - 1] { 1nat } else { 0nat })
    }
}

/// Two's-complement reading of the `n`-bit unsigned value `u`.
pub open spec fn twos_complement(u: nat, n: nat) -> int {
    if n > 0 && u >= pow2((n - 1) as nat) {
        u - pow2(n)
    } else {
        u as int
    }
}

/// Bit `j` (0 is the most significant) of a byte.
pub open spec fn byte_bit(b: u8, j: u8) -> bool {
    (b >> (7u8 - j)) & 1u8 == 1u8
}

/// A byte sequence as the sequence of its bits, each byte most significant bit first.
pub open spec fn bits_of(data: Seq<u8>) -> Seq<bool> {
    Seq::new(8 * data.len(), |i: int| byte_bit(data[i / 8], (i % 8) as u8))
}

/// `exec` ran a parser whose outcome is described by `expected`, and stopped at bit `end`.
pub open spec fn parsed<A>(exec: Result<A, Error>, expected: Result<(A, nat), Error>, end: nat) -> bool {
    match expected {
        Ok((v, p)) => exec == Ok::<A, Error>(v) && end == p,
        Err(e) => exec == Err::<A, Error>(e),
    }
}

/// `n` items parsed one after the other from `pos`; `step(i, p)` parses item `i` at `p`.
/// The first failure is the outcome.
pub open spec fn repeat<A>(
    step: spec_fn(nat, nat) -> Result<(A, nat), Error>,
    pos: nat,
    n: nat,
) -> Result<(Seq<A>, nat), Error>
    decreases n,
{
    if n == 0 {
        Ok((Seq::empty(), pos))
    } else {
        match repeat(step, pos, (n - 1) as nat) {
            Ok((items, p)) => match step((n - 1) as nat, p) {
                Ok((x, q)) => Ok((items.push(x), q)),
                Err(e) => Err(e),
            },
            Err(e) => Err(e),
        }
    }
}

/// Reading one bit.
pub open spec fn bit_spec(bits: Seq<bool>, pos: nat) -> Result<(bool, nat), Error> {
    if pos < bits.len() {
        Ok((bits[pos as int], pos + 1))
    } else {
        Err(Error::IO)
    }
}

/// Reading an `n`-bit unsigned integer.
pub open spec fn unsigned_spec(bits: Seq<bool>, pos: nat, n: nat) -> Result<(u128, nat), Error> {
    if pos + n <= bits.len() {
        Ok((bits_value(bits, pos, n) as u128, pos + n))
    } else {
        Err(Error::IO)
    }
}

/// Reading an `n`-bit two's-complement integer.
pub open spec fn signed_spec(bits: Seq<bool>, pos: nat, n: nat) -> Result<(i64, nat), Error> {
    if pos + n <= bits.len() {
        Ok((twos_complement(bits_value(bits, pos, n), n) as i64, pos + n))
    } else {
        Err(Error::IO)
    }
}

/// Number of bits from `pos` on that differ from `stop`, up to the first `stop` bit
/// or the end.
pub open spec fn run_length(bits: Seq<bool>, pos: nat, stop: bool) -> nat
    decreases bits.len() - pos,
{
    if pos < bits.len() && bits[pos as int] != stop {
        1 + run_length(bits, pos + 1, stop)
    } else {
        0
    }
}

/// Reading a unary-coded count: the bits before the first `stop` bit, which is
/// consumed and not counted.
pub open spec fn unary_spec(bits: Seq<bool>, pos: nat, stop: bool) -> Result<(u64, nat), Error> {
    let q = run_length(bits, pos, stop);
    if pos + q < bits.len() {
        Ok((q as u64, pos + q + 1))
    } else {
        Err(Error::IO)
    }
}

/// Reading `k` whole bytes from any bit position.
pub open spec fn bytes_spec(bits: Seq<bool>, pos: nat, k: nat) -> Result<(Seq<u8>, nat), Error> {
    if pos + 8 * k <= bits.len() {
        Ok((Seq::new(k, |i: int| bits_value(bits, (pos + 8 * i) as nat, 8) as u8), pos + 8 * k))
    } else {
        Err(Error::IO)
    }
}

/// Length in bytes of a UTF-8-style integer announced by its leading byte; 0 for a
/// byte that cannot lead.
pub open spec fn utf8_length(lead: nat) -> nat {
    if lead < 0x80 {
        1
    } else if lead < 0xC0 {
        0
    } else if lead < 0xE0 {
        2
    } else if lead < 0xF0 {
        3
    } else if lead < 0xF8 {
        4
    } else if lead < 0xFC {
        5
    } else if lead < 0xFE {
        6
    } else if lead == 0xFE {
        7
    } else {
        0
    }
}

/// The value bits that a leading byte carries in an encoding of `len` bytes.
pub open spec fn utf8_lead_bits(lead: nat, len: nat) -> nat {
    if len == 1 {
        lead
    } else {
        lead % pow2((7 - len) as nat)
    }
}

/// One continuation byte: `10xxxxxx`, carrying six bits.
pub open spec fn utf8_continuation_step(bits: Seq<bool>) -> spec_fn(nat, nat) -> Result<(nat, nat), Error> {
    |i: nat, p: nat|
        match unsigned_spec(bits, p, 8) {
            Ok((c, q)) => if 0x80 <= c && c < 0xC0 {
                Ok(((c % 64) as nat, q))
            } else {
                Err(Error::UTF8)
            },
            Err(e) => Err(e),
        }
}

/// The integer formed by the leading bits followed by six bits per continuation byte.
pub open spec fn utf8_value(lead_bits: nat, tail: Seq<nat>) -> nat
    decreases tail.len(),
{
    if tail.len() == 0 {
        lead_bits
    } else {
        64 * utf8_value(lead_bits, tail.drop_last()) + tail.last()
    }
}

/// Reading a UTF-8-style variable-length integer of at most `max_bytes` bytes.
pub open spec fn utf8_spec(bits: Seq<bool>, pos: nat, max_bytes: nat) -> Result<(u64, nat), Error> {
    match unsigned_spec(bits, pos, 8) {
        Ok((lead, p)) => {
            let len = utf8_length(lead as nat);
            if len == 0 {
                Err(Error::UTF8)
            } else if len > max_bytes {
                Err(Error::TooLong)
            } else {
                match repeat(utf8_continuation_step(bits), p, (len - 1) as nat) {
                    Ok((tail, q)) => Ok(
                        (utf8_value(utf8_lead_bits(lead as nat, len), tail) as u64, q),
                    ),
                    Err(e) => Err(e),
                }
            }
        },
        Err(e) => Err(e),
    }
}

/// A unary read consumes the counted bits and the stop bit: `count + 1` bits.
pub proof fn lemma_unary_consumes(bits: Seq<bool>, pos: nat, stop: bool)
    requires
        pos <= bits.len() <= u64::MAX,
    ensures
        unary_spec(bits, pos, stop) is Ok ==> {
            let (count, end) = unary_spec(bits, pos, stop)->Ok_0;
            &&& end == pos + count + 1
            &&& forall|j: int| pos <= j < pos + count ==> bits[j] != stop
            &&& bits[(pos + count) as int] == stop
        },
{
    lemma_run_length_bits(bits, pos, stop);
}

proof fn lemma_run_length_bits(bits: Seq<bool>, pos: nat, stop: bool)
    ensures
        forall|j: int| pos <= j < pos + run_length(bits, pos, stop) ==> bits[j] != stop,
        pos + run_length(bits, pos, stop) < bits.len() ==> bits[(pos + run_length(bits, pos, stop)) as int] == stop,
        pos <= bits.len() ==> pos + run_length(bits, pos, stop) <= bits.len(),
    decreases bits.len() - pos,
{
    if pos < bits.len() && bits[pos as int] != stop {
        lemma_run_length_bits(bits, pos + 1, stop);
    }
}

/// Every successful read advances the position by exactly the width it asked
/// for, so the position is the sum of the widths read.
pub proof fn lemma_reads_advance_by_width(bits: Seq<bool>, pos: nat, n: nat, k: nat)
    ensures
        bit_spec(bits, pos) is Ok ==> bit_spec(bits, pos)->Ok_0.1 == pos + 1,
        unsigned_spec(bits, pos, n) is Ok ==> unsigned_spec(bits, pos, n)->Ok_0.1 == pos + n,
        signed_spec(bits, pos, n) is Ok ==> signed_spec(bits, pos, n)->Ok_0.1 == pos + n,
        bytes_spec(bits, pos, k) is Ok ==> bytes_spec(bits, pos, k)->Ok_0.1 == pos + 8 * k,
{
}

/// Once `repeat` fails, more items fail the same way.
pub proof fn lemma_repeat_stops<A>(
    step: spec_fn(nat, nat) -> Result<(A, nat), Error>,
    pos: nat,
    i: nat,
    n: nat,
)
    requires
        i <= n,
        repeat(step, pos, i) is Err,
    ensures
        repeat(step, pos, n) == repeat(step, pos, i),
    decreases n - i,
{
    if i < n {
        lemma_repeat_stops(step, pos, i, (n - 1) as nat);
    }
}

pub proof fn lemma_bits_value_bound(bits: Seq<bool>, pos: nat, n: nat)
    ensures
        bits_value(bits, pos, n) < pow2(n),
    decreases n,
{
    if n > 0 {
        lemma_bits_value_bound(bits, pos, (n - 1) as nat);
        lemma_pow2_unfold(n);
    } else {
        lemma2_to64();
    }
}

/// A run of `c` bits that differ from `stop`, ended by a `stop` bit or by the end
/// of the stream, has length `c`.
pub proof fn lemma_run_length(bits: Seq<bool>, pos: nat, c: nat, stop: bool)
    requires
        pos + c <= bits.len(),
        forall|j: int| pos <= j < pos + c ==> bits[j] != stop,
        pos + c == bits.len() || bits[(pos + c) as int] == stop,
    ensures
        run_length(bits, pos, stop) == c,
    decreases c,
{
    if c > 0 {
        lemma_run_length(bits, pos + 1, (c - 1) as nat, stop);
    }
}

/// Eight bits read at a byte boundary give back that byte.
pub proof fn lemma_byte_bits(data: Seq<u8>, k: int)
    requires
        0 <= k < data.len(),
    ensures
        bits_value(bits_of(data), (8 * k) as nat, 8) == data[k],
{
    let bits = bits_of(data);
    let b = data[k];
    assert forall|j: int| 0 <= j < 8 implies #[trigger] bits[8 * k + j] == byte_bit(b, j as u8) by {
        assert((8 * k + j) / 8 == k && (8 * k + j) % 8 == j) by (nonlinear_arith)
            requires
                0 <= j < 8,
                0 <= k,
        ;
    }
    reveal_with_fuel(bits_value, 9);
    assert(b as u32 == (if (b >> 0u8) & 1u8 == 1u8 { 1u32 } else { 0u32 })
        + (if (b >> 1u8) & 1u8 == 1u8 { 2u32 } else { 0u32 })
        + (if (b >> 2u8) & 1u8 == 1u8 { 4u32 } else { 0u32 })
        + (if (b >> 3u8) & 1u8 == 1u8 { 8u32 } else { 0u32 })
        + (if (b >> 4u8) & 1u8 == 1u8 { 16u32 } else { 0u32 })
        + (if (b >> 5u8) & 1u8 == 1u8 { 32u32 } else { 0u32 })
        + (if (b >> 6u8) & 1u8 == 1u8 { 64u32 } else { 0u32 })
        + (if (b >> 7u8) & 1u8 == 1u8 { 128u32 } else { 0u32 })) by (bit_vector);
    assert(bits[8 * k + 0] == byte_bit(b, 0));
    assert(bits[8 * k + 1] == byte_bit(b, 1));
    assert(bits[8 * k + 2] == byte_bit(b, 2));
    assert(bits[8 * k + 3] == byte_bit(b, 3));
    assert(bits[8 * k + 4] == byte_bit(b, 4));
    assert(bits[8 * k + 5] == byte_bit(b, 5));
    assert(bits[8 * k + 6] == byte_bit(b, 6));
    assert(bits[8 * k + 7] == byte_bit(b, 7));
}

proof fn lemma_bits_value_concat(bits: Seq<bool>, pos: nat, n: nat, m: nat)
    ensures
        bits_value(bits, pos, n + m) == bits_value(bits, pos, n) * pow2(m) + bits_value(bits, pos + n, m),
    decreases m,
{
    if m == 0 {
        lemma2_to64();
    } else {
        lemma_bits_value_concat(bits, pos, n, (m - 1) as nat);
        lemma_pow2_unfold(m);
        let a = bits_value(bits, pos, n);
        let x = pow2((m - 1) as nat);
        assert(2 * (a * x) == a * (2 * x)) by (nonlinear_arith);
        assert((n + m - 1) as nat == n + (m - 1) as nat);
    }
}

/// Reading `n + m` bits at once and reading `n` bits then `m` bits see the same
/// bits: the single read succeeds exactly when both parts do, ends where the
/// second part ends, and its value is the first part followed by the second.
pub proof fn lemma_split_read(bits: Seq<bool>, pos: nat, n: nat, m: nat)
    requires
        n + m <= 128,
    ensures
        unsigned_spec(bits, pos, n + m) is Ok <==> (unsigned_spec(bits, pos, n) is Ok
            && unsigned_spec(bits, pos + n, m) is Ok),
        unsigned_spec(bits, pos, n + m) is Ok ==> {
            let (whole, end) = unsigned_spec(bits, pos, n + m)->Ok_0;
            let (high, mid) = unsigned_spec(bits, pos, n)->Ok_0;
            let (low, end2) = unsigned_spec(bits, mid, m)->Ok_0;
            &&& mid == pos + n
            &&& end2 == end
            &&& whole as int == high as int * pow2(m) + low as int
        },
{
    lemma_bits_value_concat(bits, pos, n, m);
    lemma_bits_value_bound(bits, pos, n + m);
    lemma_bits_value_bound(bits, pos, n);
    lemma_bits_value_bound(bits, pos + n, m);
    lemma_pow2_128(n + m);
    lemma_pow2_128(n);
    lemma_pow2_128(m);
}

/// One byte read as an 8-bit unsigned integer.
pub open spec fn byte_step(bits: Seq<bool>) -> spec_fn(nat, nat) -> Result<(u8, nat), Error> {
    |i: nat, p: nat|
        match unsigned_spec(bits, p, 8) {
            Ok((v, q)) => Ok((v as u8, q)),
            Err(e) => Err(e),
        }
}

/// Reading `k` bytes at once is the same as `k` successive 8-bit reads, aligned
/// or not: the same bytes in the same order, the same end, the same failure.
pub proof fn lemma_bytes_are_byte_reads(bits: Seq<bool>, pos: nat, k: nat)
    requires
        pos <= bits.len(),
    ensures
        bytes_spec(bits, pos, k) == repeat(byte_step(bits), pos, k),
    decreases k,
{
    if k > 0 {
        lemma_bytes_are_byte_reads(bits, pos, (k - 1) as nat);
        let p = (pos + 8 * (k - 1)) as nat;
        let step = byte_step(bits);
        if pos + 8 * k <= bits.len() {
            lemma_bits_value_bound(bits, p, 8);
            lemma2_to64();
            let x = bits_value(bits, p, 8) as u8;
            let prev = Seq::new((k - 1) as nat, |i: int| bits_value(bits, (pos + 8 * i) as nat, 8) as u8);
            let all = Seq::new(k, |i: int| bits_value(bits, (pos + 8 * i) as nat, 8) as u8);
            assert(all =~= prev.push(x));
            assert(repeat(step, pos, (k - 1) as nat) == Ok::<(Seq<u8>, nat), Error>((prev, p)));
            assert(step((k - 1) as nat, p) == Ok::<(u8, nat), Error>((x, pos + 8 * k)));
        } else if p <= bits.len() {
            assert(repeat(step, pos, (k - 1) as nat) is Ok);
            assert(step((k - 1) as nat, p) == Err::<(u8, nat), Error>(Error::IO));
        } else {
            assert(repeat(step, pos, (k - 1) as nat) == Err::<(Seq<u8>, nat), Error>(Error::IO));
        }
    } else {
        assert(Seq::new(0, |i: int| bits_value(bits, (pos + 8 * i) as nat, 8) as u8) =~= Seq::empty());
    }
}

/// At a byte boundary of a byte stream, `k` bytes read back the stored bytes.
pub proof fn lemma_aligned_bytes(data: Seq<u8>, j: nat, k: nat)
    ensures
        bytes_spec(bits_of(data), 8 * j, k) == if j + k <= data.len() {
            Ok::<(Seq<u8>, nat), Error>((data.subrange(j as int, (j + k) as int), 8 * (j + k)))
        } else {
            Err::<(Seq<u8>, nat), Error>(Error::IO)
        },
{
    let bits = bits_of(data);
    if j + k <= data.len() {
        let got = Seq::new(k, |i: int| bits_value(bits, (8 * j + 8 * i) as nat, 8) as u8);
        let want = data.subrange(j as int, (j + k) as int);
        assert forall|i: int| 0 <= i < k implies #[trigger] got[i] == want[i] by {
            lemma_byte_bits(data, j + i);
            assert(8 * (j + i) == 8 * j + 8 * i);
        }
        assert(got =~= want);
    }
}

/// Every field fits its width, and the powers of two up to 2^64 take their values.
pub proof fn lemma_fields_fit(bits: Seq<bool>)
    ensures
        forall|p: nat, n: nat| #[trigger] bits_value(bits, p, n) < pow2(n),
        pow2(0) == 1 && pow2(1) == 2 && pow2(2) == 4 && pow2(3) == 8 && pow2(4) == 16,
        pow2(5) == 32 && pow2(6) == 64 && pow2(7) == 128 && pow2(8) == 256,
        pow2(14) == 0x4000 && pow2(16) == 0x10000 && pow2(20) == 0x100000,
        pow2(24) == 0x1000000 && pow2(32) == 0x1_0000_0000 && pow2(36) == 0x10_0000_0000,
        pow2(64) == 0x1_0000_0000_0000_0000,
        pow2(128) == 0x1_0000_0000_0000_0000_0000_0000_0000_0000,
{
    assert forall|p: nat, n: nat| #[trigger] bits_value(bits, p, n) < pow2(n) by {
        lemma_bits_value_bound(bits, p, n);
    }
    lemma2_to64();
    lemma2_to64_rest();
    lemma_pow2_128(0);
}

/// `pow2(n)` for every width up to 128 fits below `u128::MAX + 1`.
pub proof fn lemma_pow2_128(n: nat)
    requires
        n <= 128,
    ensures
        pow2(n) <= pow2(128),
        pow2(128) == 0x1_0000_0000_0000_0000_0000_0000_0000_0000,
{
    lemma2_to64();
    lemma_pow2_adds(64, 64);
    if n < 128 {
        lemma_pow2_strictly_increases(n, 128);
    }
}

} // verus!
