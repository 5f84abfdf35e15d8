use vstd::prelude::*;
use vstd::arithmetic::power2::*;
use vstd::bits::lemma_u64_shl_is_mul;

use crate::bits::{
    bit_spec, bits_of, bits_value, bytes_spec, parsed, repeat, signed_spec, unary_spec,
    unsigned_spec, utf8_continuation_step, utf8_length, utf8_lead_bits, utf8_spec, utf8_value,
    lemma_bits_value_bound, lemma_byte_bits, lemma_pow2_128, lemma_repeat_stops, lemma_run_length,
};
use crate::error::Error;

verus! {

/// What every parser promises about the reader: the same bit sequence, still
/// well formed, a position that has not moved back.
pub open spec fn reads_on<R: BitstreamReader>(before: R, after: R) -> bool {
    &&& after.wf()
    &&& after.bits() == before.bits()
    &&& before.position() <= after.position()
}

/// A bit-oriented reader over a sequence of bits, consumed from the front.
pub trait BitstreamReader: Sized {
    /// The whole stream, as bits.
    spec fn bits(&self) -> Seq<bool>;

    /// Bits consumed since the start of the stream.
    spec fn position(&self) -> nat;

    /// The reader's internal invariant, kept by every read.
    spec fn wf(&self) -> bool;

    /// One bit.
    fn read_bit(&mut self) -> (r: Result<bool, Error>)
        requires
            old(self).wf(),
        ensures
            final(self).wf(),
            final(self).bits() == old(self).bits(),
            old(self).position() <= final(self).position() <= final(self).bits().len(),
            parsed(r, bit_spec(old(self).bits(), old(self).position()), final(self).position()),
    ;

    /// `n` bits as an unsigned integer, most significant first; 0 bits read 0.
    fn read_unsigned(&mut self, n: u8) -> (r: Result<u128, Error>)
        requires
            old(self).wf(),
            n <= 128,
        ensures
            final(self).wf(),
            final(self).bits() == old(self).bits(),
            old(self).position() <= final(self).position() <= final(self).bits().len(),
            parsed(
                r,
                unsigned_spec(old(self).bits(), old(self).position(), n as nat),
                final(self).position(),
            ),
    ;

    /// `n` bits as a two's-complement integer, sign-extended.
    fn read_signed(&mut self, n: u8) -> (r: Result<i64, Error>)
        requires
            old(self).wf(),
            1 <= n <= 64,
        ensures
            final(self).wf(),
            final(self).bits() == old(self).bits(),
            old(self).position() <= final(self).position() <= final(self).bits().len(),
            parsed(
                r,
                signed_spec(old(self).bits(), old(self).position(), n as nat),
                final(self).position(),
            ),
    ;

    /// The number of bits that differ from `stop` before the first `stop` bit.
    fn read_unary(&mut self, stop: bool) -> (r: Result<u64, Error>)
        requires
            old(self).wf(),
        ensures
            final(self).wf(),
            final(self).bits() == old(self).bits(),
            old(self).position() <= final(self).position() <= final(self).bits().len(),
            parsed(r, unary_spec(old(self).bits(), old(self).position(), stop), final(self).position()),
    ;

    /// `num_bytes` whole bytes, at any bit position.
    fn read_bytes(&mut self, num_bytes: usize) -> (r: Result<Vec<u8>, Error>)
        requires
            old(self).wf(),
        ensures
            final(self).wf(),
            final(self).bits() == old(self).bits(),
            old(self).position() <= final(self).position() <= final(self).bits().len(),
            match bytes_spec(old(self).bits(), old(self).position(), num_bytes as nat) {
                Ok((v, p)) => r is Ok && r->Ok_0@ == v && final(self).position() == p,
                Err(e) => r == Err::<Vec<u8>, Error>(e),
            },
    ;

    /// A UTF-8-style variable-length integer of at most `max_bytes` bytes.
    fn read_utf8_uint(&mut self, max_bytes: u8) -> (r: Result<u64, Error>)
        requires
            old(self).wf(),
        ensures
            final(self).wf(),
            final(self).bits() == old(self).bits(),
            old(self).position() <= final(self).position() <= final(self).bits().len(),
            parsed(
                r,
                utf8_spec(old(self).bits(), old(self).position(), max_bytes as nat),
                final(self).position(),
            ),
    ;

    /// Bits consumed since the start of the stream.
    fn get_total_position(&self) -> (r: u64)
        requires
            self.wf(),
        ensures
            r == self.position(),
    ;
}

/// A bit reader over bytes held in memory.
pub struct BufferedBitstreamReader {
    data: Vec<u8>,
    /// Index in `data` of the next byte to load.
    byte_pos: usize,
    total_position: u64,
    curr_byte: u8,
    /// Next bit of `curr_byte` to consume, 0 the most significant; 8 when it is spent.
    bit_idx: u8,
}

impl BufferedBitstreamReader {
    /// A reader at the start of `data`.
    pub fn new(data: Vec<u8>) -> (r: Self)
        requires
            8 * data.len() <= u64::MAX,
        ensures
            r.wf(),
            r.bits() == bits_of(data@),
            r.position() == 0,
    {
        BufferedBitstreamReader { data, byte_pos: 0, total_position: 0, curr_byte: 0, bit_idx: 8 }
    }

    /// Loads the next byte once the current one is spent.
    fn refill_if_necessary(&mut self) -> (r: Result<(), Error>)
        requires
            old(self).wf(),
        ensures
            final(self).wf(),
            final(self).data == old(self).data,
            final(self).total_position == old(self).total_position,
            r is Ok <==> old(self).position() < old(self).bits().len(),
            r is Ok ==> final(self).bit_idx < 8,
            r is Err ==> r == Err::<(), Error>(Error::IO),
    {
        if self.bit_idx == 8 {
            if self.byte_pos >= self.data.len() {
                return Err(Error::IO);
            }
            self.curr_byte = self.data[self.byte_pos];
            self.byte_pos = self.byte_pos + 1;
            self.bit_idx = 0;
        }
        Ok(())
    }
}

impl BitstreamReader for BufferedBitstreamReader {
    closed spec fn bits(&self) -> Seq<bool> {
        bits_of(self.data@)
    }

    closed spec fn position(&self) -> nat {
        self.total_position as nat
    }

    closed spec fn wf(&self) -> bool {
        &&& self.bit_idx <= 8
        &&& self.byte_pos <= self.data.len()
        &&& self.total_position + 8 == 8 * self.byte_pos + self.bit_idx
        &&& self.bit_idx < 8 ==> self.byte_pos >= 1 && self.curr_byte == self.data@[self.byte_pos - 1]
        &&& 8 * self.data.len() <= u64::MAX
    }

    fn read_bit(&mut self) -> (r: Result<bool, Error>) {
        self.refill_if_necessary()?;
        let bit = (self.curr_byte >> (7 - self.bit_idx)) & 1 == 1;
        proof {
            let p = self.total_position as int;
            assert(p / 8 == self.byte_pos - 1 && p % 8 == self.bit_idx);
        }
        self.bit_idx = self.bit_idx + 1;
        self.total_position = self.total_position + 1;
        Ok(bit)
    }

    fn read_unsigned(&mut self, n: u8) -> (r: Result<u128, Error>) {
        let ghost bits = self.bits();
        let ghost start = self.position();
        let mut data: u128 = 0;
        let mut i: u8 = 0;
        while i < n
            invariant
                self.wf(),
                self.bits() == bits,
                bits == old(self).bits(),
                start == old(self).position(),
                start <= self.position() <= bits.len(),
                self.position() == start + i,
                i <= n <= 128,
                data == bits_value(bits, start, i as nat),
                start + i <= bits.len(),
            decreases n - i,
        {
            let bit = self.read_bit()?;
            proof {
                lemma_bits_value_bound(bits, start, i as nat);
                lemma_pow2_128((i + 1) as nat);
                lemma_pow2_unfold((i + 1) as nat);
            }
            data = data * 2 + if bit { 1u128 } else { 0u128 };
            i = i + 1;
        }
        Ok(data)
    }

    fn read_signed(&mut self, n: u8) -> (r: Result<i64, Error>) {
        let ghost bits = self.bits();
        let ghost start = self.position();
        let u = self.read_unsigned(n)?;
        proof {
            lemma_bits_value_bound(bits, start, n as nat);
            lemma2_to64();
            if n < 64 {
                lemma_pow2_strictly_increases(n as nat, 64);
            }
            lemma_pow2_unfold(n as nat);
            lemma_u64_shl_is_mul(1, (n - 1) as u64);
        }
        let u = u as u64;
        let half: u64 = 1u64 << ((n - 1) as u64);
        if u >= half {
            Ok(((u - half) as i128 - half as i128) as i64)
        } else {
            Ok(u as i64)
        }
    }

    fn read_unary(&mut self, stop: bool) -> (r: Result<u64, Error>) {
        let ghost bits = self.bits();
        let ghost start = self.position();
        let mut count: u64 = 0;
        loop
            invariant
                self.wf(),
                self.bits() == bits,
                bits == old(self).bits(),
                start == old(self).position(),
                start <= self.position() <= bits.len(),
                self.position() == start + count,
                start + count <= bits.len(),
                forall|j: int| start <= j < start + count ==> bits[j] != stop,
            decreases bits.len() - self.position(),
        {
            let bit = match self.read_bit() {
                Ok(b) => b,
                Err(e) => {
                    proof {
                        lemma_run_length(bits, start, count as nat, stop);
                    }
                    return Err(e);
                },
            };
            if bit == stop {
                proof {
                    lemma_run_length(bits, start, count as nat, stop);
                }
                return Ok(count);
            }
            count = count + 1;
        }
    }

    fn read_bytes(&mut self, num_bytes: usize) -> (r: Result<Vec<u8>, Error>) {
        let ghost bits = self.bits();
        let ghost start = self.position();
        let mut out: Vec<u8> = Vec::new();
        let mut i: usize = 0;
        if self.total_position % 8 == 0 {
            // Aligned: the bytes come straight from the source.
            let first: usize = (self.total_position / 8) as usize;
            if num_bytes > self.data.len() - first {
                return Err(Error::IO);
            }
            while i < num_bytes
                invariant
                    self.wf(),
                    self.bits() == bits,
                    bits == old(self).bits(),
                    start == old(self).position(),
                    start <= self.position() <= bits.len(),
                    self.position() == start,
                    start == 8 * first,
                    first + num_bytes <= self.data.len(),
                    i <= num_bytes,
                    out@.len() == i,
                    forall|j: int| 0 <= j < i ==> out@[j] == bits_value(bits, (start + 8 * j) as nat, 8) as u8,
                decreases num_bytes - i,
            {
                proof {
                    lemma_byte_bits(self.data@, first + i);
                }
                out.push(self.data[first + i]);
                i = i + 1;
            }
            self.byte_pos = first + num_bytes;
            self.bit_idx = 8;
            self.total_position = self.total_position + 8 * num_bytes as u64;
        } else {
            while i < num_bytes
                invariant
                    self.wf(),
                    self.bits() == bits,
                    bits == old(self).bits(),
                    start == old(self).position(),
                    start <= self.position() <= bits.len(),
                    self.position() == start + 8 * i,
                    start + 8 * i <= bits.len(),
                    i <= num_bytes,
                    out@.len() == i,
                    forall|j: int| 0 <= j < i ==> out@[j] == bits_value(bits, (start + 8 * j) as nat, 8) as u8,
                decreases num_bytes - i,
            {
                let b = self.read_unsigned(8)?;
                proof {
                    lemma_bits_value_bound(bits, (start + 8 * i) as nat, 8);
                    lemma2_to64();
                }
                out.push(b as u8);
                i = i + 1;
            }
        }
        assert(out@ =~= Seq::new(num_bytes as nat, |j: int| bits_value(bits, (start + 8 * j) as nat, 8) as u8));
        Ok(out)
    }

    fn read_utf8_uint(&mut self, max_bytes: u8) -> (r: Result<u64, Error>) {
        let ghost bits = self.bits();
        let ghost start = self.position();
        let lead = self.read_unsigned(8)?;
        proof {
            lemma_bits_value_bound(bits, start, 8);
            lemma2_to64();
        }
        let len: u8 = if lead < 0x80 {
            1
        } else if lead < 0xC0 {
            0
        } else if lead < 0xE0 {
            2
        } else if lead < 0xF0 {
            3
        } else if lead < 0xF8 {
            4
        } else if lead < 0xFC {
            5
        } else if lead < 0xFE {
            6
        } else if lead == 0xFE {
            7
        } else {
            0
        };
        if len == 0 {
            return Err(Error::UTF8);
        }
        if len > max_bytes {
            return Err(Error::TooLong);
        }
        let mut value: u64 = if len == 1 {
            lead as u64
        } else {
            proof {
                lemma_u64_shl_is_mul(1, (7 - len) as u64);
            }
            (lead as u64) % (1u64 << ((7 - len) as u64))
        };
        let ghost lead_bits = value as nat;
        let ghost mut tail: Seq<nat> = Seq::empty();
        let mut i: u8 = 1;
        while i < len
            invariant
                self.wf(),
                self.bits() == bits,
                bits == old(self).bits(),
                start == old(self).position(),
                start <= self.position() <= bits.len(),
                1 <= i <= len <= 7,
                len <= max_bytes,
                unsigned_spec(bits, start, 8) == Ok::<(u128, nat), Error>((lead, start + 8)),
                utf8_length(lead as nat) == len as nat,
                lead_bits == utf8_lead_bits(lead as nat, len as nat),
                repeat(utf8_continuation_step(bits), start + 8, (i - 1) as nat) == Ok::<(Seq<nat>, nat), Error>((tail, self.position())),
                value == utf8_value(lead_bits, tail),
                value < pow2((7 + 6 * (i - 1)) as nat),
            decreases len - i,
        {
            let ghost p = self.position();
            let ghost step = utf8_continuation_step(bits);
            let c = match self.read_unsigned(8) {
                Ok(c) => c,
                Err(e) => {
                    proof {
                        assert(step((i - 1) as nat, p) == Err::<(nat, nat), Error>(e));
                        assert(repeat(step, start + 8, i as nat) == Err::<(Seq<nat>, nat), Error>(e));
                        lemma_repeat_stops(utf8_continuation_step(bits), start + 8, i as nat, (len - 1) as nat);
                    }
                    return Err(e);
                },
            };
            if !(0x80 <= c && c < 0xC0) {
                proof {
                    assert(step((i - 1) as nat, p) == Err::<(nat, nat), Error>(Error::UTF8));
                        assert(repeat(step, start + 8, i as nat) == Err::<(Seq<nat>, nat), Error>(Error::UTF8));
                    lemma_repeat_stops(utf8_continuation_step(bits), start + 8, i as nat, (len - 1) as nat);
                }
                return Err(Error::UTF8);
            }
            proof {
                let e = (7 + 6 * (i - 1)) as nat;
                lemma2_to64();
                assert(step((i - 1) as nat, p) == Ok::<(nat, nat), Error>(((c % 64) as nat, self.position())));
                lemma_pow2_adds(e, 6);
                lemma_pow2_strictly_increases(e + 6, 64);
                assert(value * 64 + 63 < pow2(e) * 64) by (nonlinear_arith)
                    requires value < pow2(e);
                let prev = tail;
                tail = tail.push((c % 64) as nat);
                assert(tail.drop_last() =~= prev);
            }
            value = value * 64 + (c % 64) as u64;
            i = i + 1;
        }
        Ok(value)
    }

    fn get_total_position(&self) -> (r: u64) {
        self.total_position
    }
}

} // verus!
