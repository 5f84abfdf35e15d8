use vstd::prelude::*;
use vstd::arithmetic::power2::{pow2, lemma_pow2_pos, lemma_pow2_strictly_increases};
use vstd::bits::{lemma_u32_shl_is_mul, lemma_u32_shr_is_div};
use vstd::arithmetic::div_mod::lemma_fundamental_div_mod;

use crate::bits::{
    bit_spec, bits_value, parsed, signed_spec, unary_spec, unsigned_spec, utf8_spec, repeat,
    lemma_fields_fit, lemma_repeat_stops,
};
use crate::bitstream::{BitstreamReader, reads_on};
use crate::error::Error;
use crate::frame_types::{
    ChannelAssignment, ConstantSubframe, FixedSubframe, Frame, FrameHeader, FrameModel,
    LPCSubframe, PartitionModel, RICEPartition, Residual, ResidualModel, Subframe, SubframeData,
    SubframeDataModel, SubframeModel, VerbatimSubframe, partitions_view, subframes_view,
};
use crate::rice::{read_rice, rice_spec};
use crate::metadata_types::MetadataBlockStreamInfo;

verus! {

/// The block size that a 4-bit code gives, possibly from an 8- or 16-bit value
/// (plus one) that follows in the header.
pub open spec fn block_size_spec(bits: Seq<bool>, pos: nat, code: nat) -> Result<(u32, nat), Error> {
    if code == 0 {
        Err(Error::Reserved)
    } else if code == 1 {
        Ok((192, pos))
    } else if code <= 5 {
        Ok(((576 * pow2((code - 2) as nat)) as u32, pos))
    } else if code == 6 || code == 7 {
        match unsigned_spec(bits, pos, if code == 6 { 8 } else { 16 }) {
            Ok((v, p)) => Ok(((v + 1) as u32, p)),
            Err(e) => Err(e),
        }
    } else {
        Ok(((256 * pow2((code - 8) as nat)) as u32, pos))
    }
}

/// The sample rates, in Hz, of the codes 1..=11.
pub open spec fn listed_sample_rate(code: nat) -> u32 {
    if code == 1 {
        88_200
    } else if code == 2 {
        176_400
    } else if code == 3 {
        192_000
    } else if code == 4 {
        8_000
    } else if code == 5 {
        16_000
    } else if code == 6 {
        22_050
    } else if code == 7 {
        24_000
    } else if code == 8 {
        32_000
    } else if code == 9 {
        44_100
    } else if code == 10 {
        48_000
    } else {
        96_000
    }
}

/// The sample rate that a 4-bit code gives: STREAMINFO's, a listed rate, or a
/// value that follows in the header (8-bit Hz, 16-bit Hz, 16-bit tens of Hz).
pub open spec fn sample_rate_spec(bits: Seq<bool>, pos: nat, code: nat, default: u32) -> Result<(u32, nat), Error> {
    if code == 0 {
        Ok((default, pos))
    } else if code <= 11 {
        Ok((listed_sample_rate(code), pos))
    } else if code <= 14 {
        match unsigned_spec(bits, pos, if code == 12 { 8 } else { 16 }) {
            Ok((v, p)) => Ok((if code == 14 { (v * 10) as u32 } else { v as u32 }, p)),
            Err(e) => Err(e),
        }
    } else {
        Err(Error::Reserved)
    }
}

/// The channel assignment and channel count of a 4-bit code.
pub open spec fn channel_spec(code: nat) -> Result<(ChannelAssignment, u8), Error> {
    if code <= 7 {
        Ok((ChannelAssignment::Direct, (code + 1) as u8))
    } else if code == 8 {
        Ok((ChannelAssignment::LeftSide, 2))
    } else if code == 9 {
        Ok((ChannelAssignment::RightSide, 2))
    } else if code == 10 {
        Ok((ChannelAssignment::MidSide, 2))
    } else {
        Err(Error::Reserved)
    }
}

/// The sample depth of a 3-bit code; code 0 takes STREAMINFO's, which must lie
/// in 1..=32.
pub open spec fn depth_spec(code: nat, default: u8) -> Result<u8, Error> {
    if code == 0 {
        if 1 <= default <= 32 {
            Ok(default)
        } else {
            Err(Error::Content)
        }
    } else if code == 1 {
        Ok(8)
    } else if code == 2 {
        Ok(12)
    } else if code == 4 {
        Ok(16)
    } else if code == 5 {
        Ok(24)
    } else if code == 6 {
        Ok(32)
    } else {
        Err(Error::Reserved)
    }
}

/// Reading a frame header: the 14-bit sync code 0x3FFE, a reserved zero bit, the
/// blocking strategy, four lookup codes, another reserved zero bit, the coded
/// frame or sample number, the deferred block size and sample rate, and the CRC-8.
pub open spec fn frame_header_spec(bits: Seq<bool>, pos: nat, si: MetadataBlockStreamInfo) -> Result<(FrameHeader, nat), Error> {
    if pos + 14 > bits.len() {
        Err(Error::IO)
    } else if bits_value(bits, pos, 14) != 0x3FFE {
        Err(Error::Content)
    } else if pos + 15 > bits.len() {
        Err(Error::IO)
    } else if bits[(pos + 14) as int] {
        Err(Error::Reserved)
    } else if pos + 32 > bits.len() {
        Err(Error::IO)
    } else if bits[(pos + 31) as int] {
        Err(Error::Reserved)
    } else {
        let is_variable = bits[(pos + 15) as int];
        let bs_code = bits_value(bits, pos + 16, 4);
        let sr_code = bits_value(bits, pos + 20, 4);
        let ch_code = bits_value(bits, pos + 24, 4);
        let d_code = bits_value(bits, pos + 28, 3);
        match utf8_spec(bits, pos + 32, if is_variable { 5 } else { 4 }) {
            Ok((number, p1)) => match block_size_spec(bits, p1, bs_code) {
                Ok((block_size, p2)) => match sample_rate_spec(bits, p2, sr_code, si.sample_rate) {
                    Ok((sample_rate, p3)) => match channel_spec(ch_code) {
                        Ok((channel_assignment, num_channels)) => match depth_spec(d_code, si.sample_depth) {
                            Ok(sample_depth) => match unsigned_spec(bits, p3, 8) {
                                Ok((crc, p4)) => Ok((
                                    FrameHeader {
                                        is_variable,
                                        block_size,
                                        sample_rate,
                                        num_channels,
                                        channel_assignment,
                                        sample_depth,
                                        frame_or_sample_number: Some(number),
                                        header_crc: crc as u8,
                                    },
                                    p4,
                                )),
                                Err(e) => Err(e),
                            },
                            Err(e) => Err(e),
                        },
                        Err(e) => Err(e),
                    },
                    Err(e) => Err(e),
                },
                Err(e) => Err(e),
            },
            Err(e) => Err(e),
        }
    }
}

fn read_block_size<R: BitstreamReader>(reader: &mut R, code: u8) -> (r: Result<u32, Error>)
    requires
        old(reader).wf(),
        code < 16,
    ensures
        reads_on(*old(reader), *final(reader)),
        parsed(r, block_size_spec(old(reader).bits(), old(reader).position(), code as nat), final(reader).position()),
{
    proof {
        lemma_fields_fit(reader.bits());
    }
    if code == 0 {
        Err(Error::Reserved)
    } else if code == 1 {
        Ok(192)
    } else if code <= 5 {
        proof {
            lemma_u32_shl_is_mul(576, (code - 2) as u32);
        }
        Ok(576u32 << ((code - 2) as u32))
    } else if code == 6 {
        Ok(reader.read_unsigned(8)? as u32 + 1)
    } else if code == 7 {
        Ok(reader.read_unsigned(16)? as u32 + 1)
    } else {
        proof {
            lemma_u32_shl_is_mul(256, (code - 8) as u32);
        }
        Ok(256u32 << ((code - 8) as u32))
    }
}

fn read_sample_rate<R: BitstreamReader>(reader: &mut R, code: u8, default: u32) -> (r: Result<u32, Error>)
    requires
        old(reader).wf(),
        code < 16,
    ensures
        reads_on(*old(reader), *final(reader)),
        parsed(
            r,
            sample_rate_spec(old(reader).bits(), old(reader).position(), code as nat, default),
            final(reader).position(),
        ),
{
    proof {
        lemma_fields_fit(reader.bits());
    }
    match code {
        0 => Ok(default),
        1 => Ok(88_200),
        2 => Ok(176_400),
        3 => Ok(192_000),
        4 => Ok(8_000),
        5 => Ok(16_000),
        6 => Ok(22_050),
        7 => Ok(24_000),
        8 => Ok(32_000),
        9 => Ok(44_100),
        10 => Ok(48_000),
        11 => Ok(96_000),
        12 => Ok(reader.read_unsigned(8)? as u32),
        13 => Ok(reader.read_unsigned(16)? as u32),
        14 => Ok(reader.read_unsigned(16)? as u32 * 10),
        _ => Err(Error::Reserved),
    }
}

fn decode_channel_assignment(code: u8) -> (r: Result<(ChannelAssignment, u8), Error>)
    requires
        code < 16,
    ensures
        r == channel_spec(code as nat),
{
    if code <= 7 {
        Ok((ChannelAssignment::Direct, code + 1))
    } else if code == 8 {
        Ok((ChannelAssignment::LeftSide, 2))
    } else if code == 9 {
        Ok((ChannelAssignment::RightSide, 2))
    } else if code == 10 {
        Ok((ChannelAssignment::MidSide, 2))
    } else {
        Err(Error::Reserved)
    }
}

fn decode_sample_depth(code: u8, default: u8) -> (r: Result<u8, Error>)
    requires
        code < 8,
    ensures
        r == depth_spec(code as nat, default),
{
    match code {
        0 => if 1 <= default && default <= 32 {
            Ok(default)
        } else {
            Err(Error::Content)
        },
        1 => Ok(8),
        2 => Ok(12),
        4 => Ok(16),
        5 => Ok(24),
        6 => Ok(32),
        _ => Err(Error::Reserved),
    }
}

/// Reads and resolves a frame header.
pub fn read_frame_header<R: BitstreamReader>(reader: &mut R, stream_info: &MetadataBlockStreamInfo) -> (r: Result<FrameHeader, Error>)
    requires
        old(reader).wf(),
    ensures
        reads_on(*old(reader), *final(reader)),
        parsed(r, frame_header_spec(old(reader).bits(), old(reader).position(), *stream_info), final(reader).position()),
{
    proof {
        lemma_fields_fit(reader.bits());
    }
    let ghost bits = reader.bits();
    let ghost pos = reader.position();
    let sync_code = reader.read_unsigned(14)?;
    if sync_code != 0x3FFE {
        return Err(Error::Content);
    }
    if reader.read_bit()? {
        return Err(Error::Reserved);
    }
    let is_variable = reader.read_bit()?;
    let block_size_code = reader.read_unsigned(4)? as u8;
    let sample_rate_code = reader.read_unsigned(4)? as u8;
    let channel_code = reader.read_unsigned(4)? as u8;
    let depth_code = reader.read_unsigned(3)? as u8;
    if reader.read_bit()? {
        return Err(Error::Reserved);
    }
    let number = reader.read_utf8_uint(if is_variable { 5 } else { 4 })?;
    let block_size = read_block_size(reader, block_size_code)?;
    let sample_rate = read_sample_rate(reader, sample_rate_code, stream_info.sample_rate)?;
    let (channel_assignment, num_channels) = decode_channel_assignment(channel_code)?;
    let sample_depth = decode_sample_depth(depth_code, stream_info.sample_depth)?;
    let header_crc = reader.read_unsigned(8)? as u8;
    Ok(FrameHeader {
        is_variable,
        block_size,
        sample_rate,
        num_channels,
        channel_assignment,
        sample_depth,
        frame_or_sample_number: Some(number),
        header_crc,
    })
}

/// Signed samples of `width` bits, one after the other.
pub open spec fn sample_step(bits: Seq<bool>, width: nat) -> spec_fn(nat, nat) -> Result<(i64, nat), Error> {
    |i: nat, p: nat| signed_spec(bits, p, width)
}

/// Rice-coded residuals with parameter `k`.
pub open spec fn rice_step(bits: Seq<bool>, k: nat) -> spec_fn(nat, nat) -> Result<(i32, nat), Error> {
    |i: nat, p: nat| rice_spec(bits, p, k)
}

/// Raw residuals of `width` bits; a width of 0 gives zeros without reading.
pub open spec fn escaped_step(bits: Seq<bool>, width: nat) -> spec_fn(nat, nat) -> Result<(i32, nat), Error> {
    |i: nat, p: nat|
        if width == 0 {
            Ok((0i32, p))
        } else {
            match signed_spec(bits, p, width) {
                Ok((v, q)) => Ok((v as i32, q)),
                Err(e) => Err(e),
            }
        }
}

/// Samples in partition `i` when each partition spans `per` samples: the first
/// leaves out the predictor's `order` warmup samples.
pub open spec fn partition_samples(per: nat, order: nat, i: nat) -> nat {
    if i == 0 {
        (per - order) as nat
    } else {
        per
    }
}

/// Reading one partition of `count` residuals: a parameter of `parameter_size`
/// bits; the all-ones parameter announces a 5-bit raw width and raw samples,
/// any other is the Rice parameter of every sample.
pub open spec fn partition_spec(bits: Seq<bool>, pos: nat, parameter_size: nat, count: nat) -> Result<(PartitionModel, nat), Error> {
    match unsigned_spec(bits, pos, parameter_size) {
        Ok((param, p1)) => if param as nat == pow2(parameter_size) - 1 {
            match unsigned_spec(bits, p1, 5) {
                Ok((width, p2)) => match repeat(escaped_step(bits, width as nat), p2, count) {
                    Ok((s, q)) => Ok((PartitionModel { encoding_parameter: param as u8, residual: s }, q)),
                    Err(e) => Err(e),
                },
                Err(e) => Err(e),
            }
        } else {
            match repeat(rice_step(bits, param as nat), p1, count) {
                Ok((s, q)) => Ok((PartitionModel { encoding_parameter: param as u8, residual: s }, q)),
                Err(e) => Err(e),
            }
        },
        Err(e) => Err(e),
    }
}

pub open spec fn partition_step(bits: Seq<bool>, parameter_size: nat, per: nat, order: nat) -> spec_fn(nat, nat) -> Result<(PartitionModel, nat), Error> {
    |i: nat, p: nat| partition_spec(bits, p, parameter_size, partition_samples(per, order, i))
}

/// Reading the residual of a predictor of order `order` over `block_size`
/// samples: a 2-bit coding method (4- or 5-bit parameters; the others are
/// reserved), a 4-bit partition order, then the partitions. The block must split
/// evenly into the partitions, each at least `order` samples long.
pub open spec fn residual_spec(bits: Seq<bool>, pos: nat, block_size: nat, order: nat) -> Result<(ResidualModel, nat), Error> {
    match unsigned_spec(bits, pos, 2) {
        Ok((method, p1)) => if method >= 2 {
            Err(Error::Reserved)
        } else {
            match unsigned_spec(bits, p1, 4) {
                Ok((partition_order, p2)) => {
                    let parts = pow2(partition_order as nat);
                    if block_size % parts != 0 || block_size / parts < order {
                        Err(Error::Content)
                    } else {
                        match repeat(partition_step(bits, (4 + method) as nat, block_size / parts, order), p2, parts) {
                            Ok((ps, q)) => Ok((
                                ResidualModel {
                                    parameter_size: (4 + method) as u8,
                                    order: partition_order as u8,
                                    partitions: ps,
                                },
                                q,
                            )),
                            Err(e) => Err(e),
                        }
                    }
                },
                Err(e) => Err(e),
            }
        },
        Err(e) => Err(e),
    }
}

fn read_escaped_samples<R: BitstreamReader>(reader: &mut R, width: u8, count: u32) -> (r: Result<Vec<i32>, Error>)
    requires
        old(reader).wf(),
        width < 32,
    ensures
        reads_on(*old(reader), *final(reader)),
        match repeat(escaped_step(old(reader).bits(), width as nat), old(reader).position(), count as nat) {
            Ok((v, p)) => r is Ok && r->Ok_0@ == v && final(reader).position() == p,
            Err(e) => r == Err::<Vec<i32>, Error>(e),
        },
{
    let ghost bits = reader.bits();
    let ghost start = reader.position();
    let ghost step = escaped_step(bits, width as nat);
    let mut out: Vec<i32> = Vec::new();
    let mut i: u32 = 0;
    while i < count
        invariant
            reader.wf(),
            reader.bits() == bits,
            bits == old(reader).bits(),
            start == old(reader).position(),
            start <= reader.position(),
            width < 32,
            i <= count,
            step == escaped_step(bits, width as nat),
            repeat(step, start, i as nat) == Ok::<(Seq<i32>, nat), Error>((out@, reader.position())),
        decreases count - i,
    {
        let ghost p = reader.position();
        if width == 0 {
            assert(step(i as nat, p) == Ok::<(i32, nat), Error>((0i32, p)));
            out.push(0);
        } else {
            let x = match reader.read_signed(width) {
                Ok(x) => x,
                Err(e) => {
                    proof {
                        assert(step(i as nat, p) == Err::<(i32, nat), Error>(e));
                        assert(repeat(step, start, (i + 1) as nat) == Err::<(Seq<i32>, nat), Error>(e));
                        lemma_repeat_stops(step, start, (i + 1) as nat, count as nat);
                    }
                    return Err(e);
                },
            };
            assert(step(i as nat, p) == Ok::<(i32, nat), Error>((x as i32, reader.position())));
            out.push(x as i32);
        }
        i = i + 1;
    }
    Ok(out)
}

fn read_rice_samples<R: BitstreamReader>(reader: &mut R, k: u8, count: u32) -> (r: Result<Vec<i32>, Error>)
    requires
        old(reader).wf(),
        k <= 30,
    ensures
        reads_on(*old(reader), *final(reader)),
        match repeat(rice_step(old(reader).bits(), k as nat), old(reader).position(), count as nat) {
            Ok((v, p)) => r is Ok && r->Ok_0@ == v && final(reader).position() == p,
            Err(e) => r == Err::<Vec<i32>, Error>(e),
        },
{
    let ghost bits = reader.bits();
    let ghost start = reader.position();
    let ghost step = rice_step(bits, k as nat);
    let mut out: Vec<i32> = Vec::new();
    let mut i: u32 = 0;
    while i < count
        invariant
            reader.wf(),
            reader.bits() == bits,
            bits == old(reader).bits(),
            start == old(reader).position(),
            start <= reader.position(),
            k <= 30,
            i <= count,
            step == rice_step(bits, k as nat),
            repeat(step, start, i as nat) == Ok::<(Seq<i32>, nat), Error>((out@, reader.position())),
        decreases count - i,
    {
        let ghost p = reader.position();
        let x = match read_rice(reader, k) {
            Ok(x) => x,
            Err(e) => {
                proof {
                    assert(step(i as nat, p) == Err::<(i32, nat), Error>(e));
                    assert(repeat(step, start, (i + 1) as nat) == Err::<(Seq<i32>, nat), Error>(e));
                    lemma_repeat_stops(step, start, (i + 1) as nat, count as nat);
                }
                return Err(e);
            },
        };
        assert(step(i as nat, p) == Ok::<(i32, nat), Error>((x, reader.position())));
        out.push(x);
        i = i + 1;
    }
    Ok(out)
}

/// Reads partition `idx` of a residual of `2^partition_order` partitions.
fn read_rice_partition<R: BitstreamReader>(
    reader: &mut R,
    parameter_size: u8,
    block_size: u32,
    partition_order: u8,
    predictor_order: u8,
    idx: u32,
) -> (r: Result<RICEPartition, Error>)
    requires
        old(reader).wf(),
        parameter_size == 4 || parameter_size == 5,
        partition_order < 16,
        block_size as nat / pow2(partition_order as nat) >= predictor_order,
    ensures
        reads_on(*old(reader), *final(reader)),
        match partition_spec(
            old(reader).bits(),
            old(reader).position(),
            parameter_size as nat,
            partition_samples(block_size as nat / pow2(partition_order as nat), predictor_order as nat, idx as nat),
        ) {
            Ok((v, p)) => r is Ok && r->Ok_0@ == v && final(reader).position() == p,
            Err(e) => r == Err::<RICEPartition, Error>(e),
        },
{
    proof {
        lemma_fields_fit(reader.bits());
        lemma_u32_shr_is_div(block_size, partition_order as u32);
    }
    let per = block_size >> (partition_order as u32);
    let num_samples = if idx == 0 {
        per - predictor_order as u32
    } else {
        per
    };
    let encoding_parameter = reader.read_unsigned(parameter_size)? as u8;
    let escape: u8 = if parameter_size == 4 { 15 } else { 31 };
    if encoding_parameter == escape {
        let width = reader.read_unsigned(5)? as u8;
        let residual = read_escaped_samples(reader, width, num_samples)?;
        Ok(RICEPartition { encoding_parameter, residual })
    } else {
        let residual = read_rice_samples(reader, encoding_parameter, num_samples)?;
        Ok(RICEPartition { encoding_parameter, residual })
    }
}

/// Reads the `2^partition_order` partitions of a residual.
fn read_partitions<R: BitstreamReader>(
    reader: &mut R,
    parameter_size: u8,
    block_size: u32,
    partition_order: u8,
    predictor_order: u8,
) -> (r: Result<Vec<RICEPartition>, Error>)
    requires
        old(reader).wf(),
        parameter_size == 4 || parameter_size == 5,
        partition_order < 16,
        block_size as nat / pow2(partition_order as nat) >= predictor_order,
    ensures
        reads_on(*old(reader), *final(reader)),
        match repeat(
            partition_step(
                old(reader).bits(),
                parameter_size as nat,
                block_size as nat / pow2(partition_order as nat),
                predictor_order as nat,
            ),
            old(reader).position(),
            pow2(partition_order as nat),
        ) {
            Ok((v, p)) => r is Ok && partitions_view(r->Ok_0@) == v && final(reader).position() == p,
            Err(e) => r == Err::<Vec<RICEPartition>, Error>(e),
        },
{
    proof {
        lemma_fields_fit(reader.bits());
        lemma_pow2_strictly_increases(partition_order as nat, 16);
        lemma_u32_shl_is_mul(1, partition_order as u32);
    }
    let ghost bits = reader.bits();
    let ghost start = reader.position();
    let parts: u32 = 1u32 << (partition_order as u32);
    let ghost step = partition_step(
        bits,
        parameter_size as nat,
        block_size as nat / parts as nat,
        predictor_order as nat,
    );
    let mut partitions: Vec<RICEPartition> = Vec::new();
    let mut idx: u32 = 0;
    proof {
        assert(partitions_view(partitions@) =~= Seq::empty());
    }
    while idx < parts
        invariant
            reader.wf(),
            reader.bits() == bits,
            bits == old(reader).bits(),
            start == old(reader).position(),
            start <= reader.position(),
            idx <= parts,
            parts == pow2(partition_order as nat),
            parameter_size == 4 || parameter_size == 5,
            partition_order < 16,
            block_size as nat / pow2(partition_order as nat) >= predictor_order,
            step == partition_step(bits, parameter_size as nat, block_size as nat / parts as nat, predictor_order as nat),
            repeat(step, start, idx as nat) == Ok::<(Seq<PartitionModel>, nat), Error>((partitions_view(partitions@), reader.position())),
        decreases parts - idx,
    {
        let ghost p = reader.position();
        let partition = match read_rice_partition(reader, parameter_size, block_size, partition_order, predictor_order, idx) {
            Ok(x) => x,
            Err(e) => {
                proof {
                    assert(step(idx as nat, p) == Err::<(PartitionModel, nat), Error>(e));
                    assert(repeat(step, start, (idx + 1) as nat) == Err::<(Seq<PartitionModel>, nat), Error>(e));
                    lemma_repeat_stops(step, start, (idx + 1) as nat, parts as nat);
                }
                return Err(e);
            },
        };
        proof {
            assert(step(idx as nat, p) == Ok::<(PartitionModel, nat), Error>((partition@, reader.position())));
            assert(partitions_view(partitions@.push(partition)) =~= partitions_view(partitions@).push(partition@));
        }
        partitions.push(partition);
        idx = idx + 1;
    }
    Ok(partitions)
}

/// Reads the residual of a predictor of order `predictor_order`.
fn read_residual<R: BitstreamReader>(reader: &mut R, block_size: u32, predictor_order: u8) -> (r: Result<Residual, Error>)
    requires
        old(reader).wf(),
    ensures
        reads_on(*old(reader), *final(reader)),
        match residual_spec(old(reader).bits(), old(reader).position(), block_size as nat, predictor_order as nat) {
            Ok((v, p)) => r is Ok && r->Ok_0@ == v && final(reader).position() == p,
            Err(e) => r == Err::<Residual, Error>(e),
        },
{
    proof {
        lemma_fields_fit(reader.bits());
    }
    let method = reader.read_unsigned(2)?;
    if method >= 2 {
        return Err(Error::Reserved);
    }
    let parameter_size = 4 + method as u8;
    let partition_order = reader.read_unsigned(4)? as u8;
    proof {
        lemma_pow2_strictly_increases(partition_order as nat, 16);
        lemma_pow2_pos(partition_order as nat);
        lemma_u32_shl_is_mul(1, partition_order as u32);
    }
    let parts: u32 = 1u32 << (partition_order as u32);
    if block_size % parts != 0 || block_size / parts < predictor_order as u32 {
        return Err(Error::Content);
    }
    let partitions = read_partitions(reader, parameter_size, block_size, partition_order, predictor_order)?;
    Ok(Residual { parameter_size, order: partition_order, partitions })
}

/// Coefficients of `precision` bits, two's complement.
pub open spec fn coefficient_step(bits: Seq<bool>, precision: nat) -> spec_fn(nat, nat) -> Result<(i16, nat), Error> {
    |i: nat, p: nat|
        match signed_spec(bits, p, precision) {
            Ok((v, q)) => Ok((v as i16, q)),
            Err(e) => Err(e),
        }
}

/// Reading a fixed-predictor subframe body: `order` warmup samples of `width`
/// bits, then the residual.
pub open spec fn fixed_spec(bits: Seq<bool>, pos: nat, width: nat, block_size: nat, order: nat) -> Result<(SubframeDataModel, nat), Error> {
    match repeat(sample_step(bits, width), pos, order) {
        Ok((warmup, p1)) => match residual_spec(bits, p1, block_size, order) {
            Ok((residual, p2)) => Ok((SubframeDataModel::Fixed { order: order as u8, warmup, residual }, p2)),
            Err(e) => Err(e),
        },
        Err(e) => Err(e),
    }
}

/// Reading an LPC subframe body: `order` warmup samples, a 4-bit precision code
/// (all ones is reserved; otherwise precision is code plus one), a 5-bit signed
/// shift, `order` coefficients of that precision, then the residual.
pub open spec fn lpc_spec(bits: Seq<bool>, pos: nat, width: nat, block_size: nat, order: nat) -> Result<(SubframeDataModel, nat), Error> {
    match repeat(sample_step(bits, width), pos, order) {
        Ok((warmup, p1)) => match unsigned_spec(bits, p1, 4) {
            Ok((code, p2)) => if code == 15 {
                Err(Error::Reserved)
            } else {
                let precision = (code + 1) as nat;
                match signed_spec(bits, p2, 5) {
                    Ok((shift, p3)) => match repeat(coefficient_step(bits, precision), p3, order) {
                        Ok((coefficients, p4)) => match residual_spec(bits, p4, block_size, order) {
                            Ok((residual, p5)) => Ok((
                                SubframeDataModel::LPC {
                                    order: order as u8,
                                    warmup,
                                    coefficient_precision: precision as u8,
                                    shift: shift as i8,
                                    coefficients,
                                    residual,
                                },
                                p5,
                            )),
                            Err(e) => Err(e),
                        },
                        Err(e) => Err(e),
                    },
                    Err(e) => Err(e),
                }
            },
            Err(e) => Err(e),
        },
        Err(e) => Err(e),
    }
}

/// Reading a subframe body by its 6-bit type: 0 constant, 1 verbatim,
/// `001ooo` fixed of order `ooo` up to 4, `1xxxxx` LPC of order `xxxxx + 1`;
/// the rest is reserved. A predictor longer than the block is malformed.
pub open spec fn subframe_data_spec(bits: Seq<bool>, pos: nat, kind: nat, width: nat, block_size: nat) -> Result<(SubframeDataModel, nat), Error> {
    if kind == 0 {
        match signed_spec(bits, pos, width) {
            Ok((v, p)) => Ok((SubframeDataModel::Constant(v), p)),
            Err(e) => Err(e),
        }
    } else if kind == 1 {
        match repeat(sample_step(bits, width), pos, block_size) {
            Ok((samples, p)) => Ok((SubframeDataModel::Verbatim(samples), p)),
            Err(e) => Err(e),
        }
    } else if 8 <= kind <= 12 {
        if kind - 8 > block_size {
            Err(Error::Content)
        } else {
            fixed_spec(bits, pos, width, block_size, (kind - 8) as nat)
        }
    } else if kind >= 32 {
        if kind - 31 > block_size {
            Err(Error::Content)
        } else {
            lpc_spec(bits, pos, width, block_size, (kind - 31) as nat)
        }
    } else {
        Err(Error::Reserved)
    }
}

/// Reading the wasted-bits flag and, when set, the unary count `k`: `k + 1`
/// wasted bits.
pub open spec fn wasted_spec(bits: Seq<bool>, pos: nat) -> Result<(nat, nat), Error> {
    match bit_spec(bits, pos) {
        Ok((has_wasted, p1)) => if has_wasted {
            match unary_spec(bits, p1, true) {
                Ok((k, p2)) => Ok((k as nat + 1, p2)),
                Err(e) => Err(e),
            }
        } else {
            Ok((0, p1))
        },
        Err(e) => Err(e),
    }
}

/// Reading a subframe whose samples have `depth` bits: a zero padding bit, the
/// type, the wasted bits (which must leave at least one bit), then the body with
/// samples of `depth` less the wasted bits.
pub open spec fn subframe_spec(bits: Seq<bool>, pos: nat, depth: nat, block_size: nat) -> Result<(SubframeModel, nat), Error> {
    match bit_spec(bits, pos) {
        Ok((padding, p1)) => if padding {
            Err(Error::Content)
        } else {
            match unsigned_spec(bits, p1, 6) {
                Ok((kind, p2)) => match wasted_spec(bits, p2) {
                    Ok((wasted, p3)) => if wasted >= depth {
                        Err(Error::Content)
                    } else {
                        match subframe_data_spec(bits, p3, kind as nat, (depth - wasted) as nat, block_size) {
                            Ok((data, p4)) => Ok((SubframeModel { wasted_bits: wasted as u8, data }, p4)),
                            Err(e) => Err(e),
                        }
                    },
                    Err(e) => Err(e),
                },
                Err(e) => Err(e),
            }
        },
        Err(e) => Err(e),
    }
}

/// Whether channel `i` carries the difference signal of a stereo decorrelation.
pub open spec fn is_side_channel(assignment: ChannelAssignment, i: nat) -> bool {
    ||| assignment == ChannelAssignment::LeftSide && i == 1
    ||| assignment == ChannelAssignment::RightSide && i == 0
    ||| assignment == ChannelAssignment::MidSide && i == 1
}

/// Sample depth of channel `i`: one more bit on a side channel.
pub open spec fn channel_depth(header: FrameHeader, i: nat) -> nat {
    header.sample_depth as nat + if is_side_channel(header.channel_assignment, i) { 1nat } else { 0nat }
}

pub open spec fn subframe_step(bits: Seq<bool>, header: FrameHeader) -> spec_fn(nat, nat) -> Result<(SubframeModel, nat), Error> {
    |i: nat, p: nat| subframe_spec(bits, p, channel_depth(header, i), header.block_size as nat)
}

/// Reading the frame trailer: zero bits up to the next byte boundary, then the
/// CRC-16.
pub open spec fn trailer_spec(bits: Seq<bool>, pos: nat) -> Result<(u16, nat), Error> {
    match unsigned_spec(bits, pos, ((8 - pos % 8) % 8) as nat) {
        Ok((padding, p1)) => if padding != 0 {
            Err(Error::Content)
        } else {
            match unsigned_spec(bits, p1, 16) {
                Ok((crc, p2)) => Ok((crc as u16, p2)),
                Err(e) => Err(e),
            }
        },
        Err(e) => Err(e),
    }
}

/// Reading a frame: the header, one subframe per channel, the trailer.
pub open spec fn frame_spec(bits: Seq<bool>, pos: nat, si: MetadataBlockStreamInfo) -> Result<(FrameModel, nat), Error> {
    match frame_header_spec(bits, pos, si) {
        Ok((header, p1)) => match repeat(subframe_step(bits, header), p1, header.num_channels as nat) {
            Ok((subframes, p2)) => match trailer_spec(bits, p2) {
                Ok((overall_crc, p3)) => Ok((FrameModel { header, subframes, overall_crc }, p3)),
                Err(e) => Err(e),
            },
            Err(e) => Err(e),
        },
        Err(e) => Err(e),
    }
}

fn read_samples<R: BitstreamReader>(reader: &mut R, width: u8, count: u32) -> (r: Result<Vec<i64>, Error>)
    requires
        old(reader).wf(),
        1 <= width <= 64,
    ensures
        reads_on(*old(reader), *final(reader)),
        match repeat(sample_step(old(reader).bits(), width as nat), old(reader).position(), count as nat) {
            Ok((v, p)) => r is Ok && r->Ok_0@ == v && final(reader).position() == p,
            Err(e) => r == Err::<Vec<i64>, Error>(e),
        },
{
    let ghost bits = reader.bits();
    let ghost start = reader.position();
    let ghost step = sample_step(bits, width as nat);
    let mut out: Vec<i64> = Vec::new();
    let mut i: u32 = 0;
    while i < count
        invariant
            reader.wf(),
            reader.bits() == bits,
            bits == old(reader).bits(),
            start == old(reader).position(),
            start <= reader.position(),
            1 <= width <= 64,
            i <= count,
            step == sample_step(bits, width as nat),
            repeat(step, start, i as nat) == Ok::<(Seq<i64>, nat), Error>((out@, reader.position())),
        decreases count - i,
    {
        let ghost p = reader.position();
        let x = match reader.read_signed(width) {
            Ok(x) => x,
            Err(e) => {
                proof {
                    assert(step(i as nat, p) == Err::<(i64, nat), Error>(e));
                    assert(repeat(step, start, (i + 1) as nat) == Err::<(Seq<i64>, nat), Error>(e));
                    lemma_repeat_stops(step, start, (i + 1) as nat, count as nat);
                }
                return Err(e);
            },
        };
        assert(step(i as nat, p) == Ok::<(i64, nat), Error>((x, reader.position())));
        out.push(x);
        i = i + 1;
    }
    Ok(out)
}

fn read_coefficients<R: BitstreamReader>(reader: &mut R, precision: u8, count: u8) -> (r: Result<Vec<i16>, Error>)
    requires
        old(reader).wf(),
        1 <= precision <= 15,
    ensures
        reads_on(*old(reader), *final(reader)),
        match repeat(coefficient_step(old(reader).bits(), precision as nat), old(reader).position(), count as nat) {
            Ok((v, p)) => r is Ok && r->Ok_0@ == v && final(reader).position() == p,
            Err(e) => r == Err::<Vec<i16>, Error>(e),
        },
{
    let ghost bits = reader.bits();
    let ghost start = reader.position();
    let ghost step = coefficient_step(bits, precision as nat);
    let mut out: Vec<i16> = Vec::new();
    let mut i: u8 = 0;
    while i < count
        invariant
            reader.wf(),
            reader.bits() == bits,
            bits == old(reader).bits(),
            start == old(reader).position(),
            start <= reader.position(),
            1 <= precision <= 15,
            i <= count,
            step == coefficient_step(bits, precision as nat),
            repeat(step, start, i as nat) == Ok::<(Seq<i16>, nat), Error>((out@, reader.position())),
        decreases count - i,
    {
        let ghost p = reader.position();
        let x = match reader.read_signed(precision) {
            Ok(x) => x,
            Err(e) => {
                proof {
                    assert(step(i as nat, p) == Err::<(i16, nat), Error>(e));
                    assert(repeat(step, start, (i + 1) as nat) == Err::<(Seq<i16>, nat), Error>(e));
                    lemma_repeat_stops(step, start, (i + 1) as nat, count as nat);
                }
                return Err(e);
            },
        };
        assert(step(i as nat, p) == Ok::<(i16, nat), Error>((x as i16, reader.position())));
        out.push(x as i16);
        i = i + 1;
    }
    Ok(out)
}

fn read_constant_subframe<R: BitstreamReader>(reader: &mut R, sample_depth: u8) -> (r: Result<ConstantSubframe, Error>)
    requires
        old(reader).wf(),
        1 <= sample_depth <= 64,
    ensures
        reads_on(*old(reader), *final(reader)),
        match signed_spec(old(reader).bits(), old(reader).position(), sample_depth as nat) {
            Ok((v, p)) => r == Ok::<ConstantSubframe, Error>(ConstantSubframe { content: v }) && final(reader).position() == p,
            Err(e) => r == Err::<ConstantSubframe, Error>(e),
        },
{
    Ok(ConstantSubframe { content: reader.read_signed(sample_depth)? })
}

fn read_verbatim_subframe<R: BitstreamReader>(reader: &mut R, sample_depth: u8, block_size: u32) -> (r: Result<VerbatimSubframe, Error>)
    requires
        old(reader).wf(),
        1 <= sample_depth <= 64,
    ensures
        reads_on(*old(reader), *final(reader)),
        match repeat(sample_step(old(reader).bits(), sample_depth as nat), old(reader).position(), block_size as nat) {
            Ok((v, p)) => r is Ok && r->Ok_0.content@ == v && final(reader).position() == p,
            Err(e) => r == Err::<VerbatimSubframe, Error>(e),
        },
{
    Ok(VerbatimSubframe { content: read_samples(reader, sample_depth, block_size)? })
}

fn read_fixed_subframe<R: BitstreamReader>(reader: &mut R, sample_depth: u8, block_size: u32, order: u8) -> (r: Result<FixedSubframe, Error>)
    requires
        old(reader).wf(),
        1 <= sample_depth <= 64,
    ensures
        reads_on(*old(reader), *final(reader)),
        match fixed_spec(old(reader).bits(), old(reader).position(), sample_depth as nat, block_size as nat, order as nat) {
            Ok((v, p)) => r is Ok && SubframeData::Fixed(r->Ok_0)@ == v && final(reader).position() == p,
            Err(e) => r == Err::<FixedSubframe, Error>(e),
        },
{
    let warmup = read_samples(reader, sample_depth, order as u32)?;
    let residual = read_residual(reader, block_size, order)?;
    Ok(FixedSubframe { order, warmup, residual })
}

fn read_lpc_subframe<R: BitstreamReader>(reader: &mut R, sample_depth: u8, block_size: u32, order: u8) -> (r: Result<LPCSubframe, Error>)
    requires
        old(reader).wf(),
        1 <= sample_depth <= 64,
    ensures
        reads_on(*old(reader), *final(reader)),
        match lpc_spec(old(reader).bits(), old(reader).position(), sample_depth as nat, block_size as nat, order as nat) {
            Ok((v, p)) => r is Ok && SubframeData::LPC(r->Ok_0)@ == v && final(reader).position() == p,
            Err(e) => r == Err::<LPCSubframe, Error>(e),
        },
{
    proof {
        lemma_fields_fit(reader.bits());
    }
    let warmup = read_samples(reader, sample_depth, order as u32)?;
    let code = reader.read_unsigned(4)? as u8;
    if code == 15 {
        return Err(Error::Reserved);
    }
    let coefficient_precision = code + 1;
    let shift = reader.read_signed(5)? as i8;
    let coefficients = read_coefficients(reader, coefficient_precision, order)?;
    let residual = read_residual(reader, block_size, order)?;
    Ok(LPCSubframe { order, warmup, coefficient_precision, shift, coefficients, residual })
}

/// Reads one subframe whose samples have `sample_depth` bits before the wasted
/// bits are taken off.
fn read_subframe<R: BitstreamReader>(reader: &mut R, sample_depth: u8, block_size: u32) -> (r: Result<Subframe, Error>)
    requires
        old(reader).wf(),
        1 <= sample_depth <= 33,
    ensures
        reads_on(*old(reader), *final(reader)),
        match subframe_spec(old(reader).bits(), old(reader).position(), sample_depth as nat, block_size as nat) {
            Ok((v, p)) => r is Ok && r->Ok_0@ == v && final(reader).position() == p,
            Err(e) => r == Err::<Subframe, Error>(e),
        },
{
    proof {
        lemma_fields_fit(reader.bits());
    }
    if reader.read_bit()? {
        return Err(Error::Content);
    }
    let subframe_type = reader.read_unsigned(6)? as u8;
    let wasted_bits: u8 = if reader.read_bit()? {
        let k = reader.read_unary(true)?;
        if k >= (sample_depth - 1) as u64 {
            return Err(Error::Content);
        }
        k as u8 + 1
    } else {
        0
    };
    let width = sample_depth - wasted_bits;
    let data = if subframe_type == 0 {
        SubframeData::Constant(read_constant_subframe(reader, width)?)
    } else if subframe_type == 1 {
        SubframeData::Verbatim(read_verbatim_subframe(reader, width, block_size)?)
    } else if 8 <= subframe_type && subframe_type <= 12 {
        let order = subframe_type - 8;
        if order as u32 > block_size {
            return Err(Error::Content);
        }
        SubframeData::Fixed(read_fixed_subframe(reader, width, block_size, order)?)
    } else if subframe_type >= 32 {
        let low = subframe_type & 0x1F;
        assert(low == subframe_type - 32) by (bit_vector)
            requires
                32 <= subframe_type < 64,
                low == subframe_type & 0x1F,
        ;
        let order = low + 1;
        if order as u32 > block_size {
            return Err(Error::Content);
        }
        SubframeData::LPC(read_lpc_subframe(reader, width, block_size, order)?)
    } else {
        return Err(Error::Reserved);
    };
    Ok(Subframe { wasted_bits, data })
}

/// Reads the subframes of a frame, one per channel.
fn read_subframes<R: BitstreamReader>(reader: &mut R, header: &FrameHeader) -> (r: Result<Vec<Subframe>, Error>)
    requires
        old(reader).wf(),
        1 <= header.sample_depth <= 32,
    ensures
        reads_on(*old(reader), *final(reader)),
        match repeat(subframe_step(old(reader).bits(), *header), old(reader).position(), header.num_channels as nat) {
            Ok((v, p)) => r is Ok && subframes_view(r->Ok_0@) == v && final(reader).position() == p,
            Err(e) => r == Err::<Vec<Subframe>, Error>(e),
        },
{
    let ghost bits = reader.bits();
    let ghost start = reader.position();
    let ghost step = subframe_step(bits, *header);
    let mut subframes: Vec<Subframe> = Vec::new();
    let mut i: u8 = 0;
    proof {
        assert(subframes_view(subframes@) =~= Seq::empty());
    }
    while i < header.num_channels
        invariant
            reader.wf(),
            reader.bits() == bits,
            bits == old(reader).bits(),
            start == old(reader).position(),
            start <= reader.position(),
            1 <= header.sample_depth <= 32,
            i <= header.num_channels,
            step == subframe_step(bits, *header),
            repeat(step, start, i as nat) == Ok::<(Seq<SubframeModel>, nat), Error>((subframes_view(subframes@), reader.position())),
        decreases header.num_channels - i,
    {
        let ghost p = reader.position();
        let side = match header.channel_assignment {
            ChannelAssignment::LeftSide => i == 1,
            ChannelAssignment::RightSide => i == 0,
            ChannelAssignment::MidSide => i == 1,
            ChannelAssignment::Direct => false,
        };
        let depth = if side { header.sample_depth + 1 } else { header.sample_depth };
        assert(depth as nat == channel_depth(*header, i as nat));
        let subframe = match read_subframe(reader, depth, header.block_size) {
            Ok(x) => x,
            Err(e) => {
                proof {
                    assert(step(i as nat, p) == Err::<(SubframeModel, nat), Error>(e));
                    assert(repeat(step, start, (i + 1) as nat) == Err::<(Seq<SubframeModel>, nat), Error>(e));
                    lemma_repeat_stops(step, start, (i + 1) as nat, header.num_channels as nat);
                }
                return Err(e);
            },
        };
        proof {
            assert(step(i as nat, p) == Ok::<(SubframeModel, nat), Error>((subframe@, reader.position())));
            assert(subframes_view(subframes@.push(subframe)) =~= subframes_view(subframes@).push(subframe@));
        }
        subframes.push(subframe);
        i = i + 1;
    }
    Ok(subframes)
}

/// Reads one frame: its header (with STREAMINFO's sample rate and depth as the
/// defaults that header codes may ask for), a subframe per channel, the zero
/// padding up to a byte boundary, and the CRC-16.
pub fn read_frame<R: BitstreamReader>(reader: &mut R, stream_info: &MetadataBlockStreamInfo) -> (r: Result<Frame, Error>)
    requires
        old(reader).wf(),
    ensures
        reads_on(*old(reader), *final(reader)),
        match frame_spec(old(reader).bits(), old(reader).position(), *stream_info) {
            Ok((v, p)) => r is Ok && r->Ok_0@ == v && final(reader).position() == p,
            Err(e) => r == Err::<Frame, Error>(e),
        },
{
    proof {
        lemma_fields_fit(reader.bits());
    }
    let header = read_frame_header(reader, stream_info)?;
    let subframes = read_subframes(reader, &header)?;
    let position = reader.get_total_position();
    let pad = ((8 - position % 8) % 8) as u8;
    let padding = reader.read_unsigned(pad)?;
    if padding != 0 {
        return Err(Error::Content);
    }
    let overall_crc = reader.read_unsigned(16)? as u16;
    Ok(Frame {
        is_variable: header.is_variable,
        block_size: header.block_size,
        sample_rate: header.sample_rate,
        num_channels: header.num_channels,
        channel_assignment: header.channel_assignment,
        sample_depth: header.sample_depth,
        frame_or_sample_number: header.frame_or_sample_number,
        header_crc: header.header_crc,
        subframes,
        overall_crc,
    })
}

/// Residual samples held by a list of partitions.
pub open spec fn total_samples(ps: Seq<PartitionModel>) -> nat
    decreases ps.len(),
{
    if ps.len() == 0 {
        0
    } else {
        total_samples(ps.drop_last()) + ps.last().residual.len()
    }
}

proof fn lemma_repeat_len<A>(step: spec_fn(nat, nat) -> Result<(A, nat), Error>, pos: nat, n: nat)
    ensures
        repeat(step, pos, n) is Ok ==> repeat(step, pos, n)->Ok_0.0.len() == n,
    decreases n,
{
    if n > 0 {
        lemma_repeat_len(step, pos, (n - 1) as nat);
    }
}

proof fn lemma_partition_len(bits: Seq<bool>, pos: nat, parameter_size: nat, count: nat)
    ensures
        partition_spec(bits, pos, parameter_size, count) is Ok
            ==> partition_spec(bits, pos, parameter_size, count)->Ok_0.0.residual.len() == count,
{
    if let Ok((param, p1)) = unsigned_spec(bits, pos, parameter_size) {
        if let Ok((width, p2)) = unsigned_spec(bits, p1, 5) {
            lemma_repeat_len(escaped_step(bits, width as nat), p2, count);
        }
        lemma_repeat_len(rice_step(bits, param as nat), p1, count);
    }
}

proof fn lemma_partitions_total(bits: Seq<bool>, pos: nat, parameter_size: nat, per: nat, order: nat, n: nat)
    requires
        order <= per,
        n >= 1,
    ensures
        repeat(partition_step(bits, parameter_size, per, order), pos, n) is Ok ==> total_samples(
            repeat(partition_step(bits, parameter_size, per, order), pos, n)->Ok_0.0,
        ) == n * per - order,
    decreases n,
{
    let step = partition_step(bits, parameter_size, per, order);
    if let Ok((ps, q)) = repeat(step, pos, n) {
        let (prev, p) = repeat(step, pos, (n - 1) as nat)->Ok_0;
        let count = partition_samples(per, order, (n - 1) as nat);
        lemma_partition_len(bits, p, parameter_size, count);
        assert(step((n - 1) as nat, p) == partition_spec(bits, p, parameter_size, count));
        assert(ps.drop_last() =~= prev);
        assert(ps.last() == partition_spec(bits, p, parameter_size, count)->Ok_0.0);
        assert(n * per >= per) by (nonlinear_arith)
            requires
                n >= 1,
        ;
        assert(total_samples(ps) == total_samples(prev) + count);
        if n == 1 {
            lemma_repeat_len(step, pos, 0);
            assert(prev.len() == 0);
            assert(total_samples(prev) == 0);
            assert(count == per - order);
            assert(n * per == per) by (nonlinear_arith)
                requires
                    n == 1,
            ;
        } else {
            lemma_partitions_total(bits, pos, parameter_size, per, order, (n - 1) as nat);
            assert(total_samples(prev) == (n - 1) * per - order);
            assert(count == per);
            assert((n - 1) * per + per == n * per) by (nonlinear_arith);
        }
    }
}

/// The partitions of a residual hold, together, the block size less the
/// predictor order: every sample of the block that is not a warmup sample.
pub proof fn lemma_residual_sample_count(bits: Seq<bool>, pos: nat, block_size: nat, order: nat)
    ensures
        residual_spec(bits, pos, block_size, order) is Ok ==> total_samples(
            residual_spec(bits, pos, block_size, order)->Ok_0.0.partitions,
        ) == block_size - order,
{
    if let Ok((method, p1)) = unsigned_spec(bits, pos, 2) {
        if let Ok((partition_order, p2)) = unsigned_spec(bits, p1, 4) {
            let parts = pow2(partition_order as nat);
            lemma_pow2_pos(partition_order as nat);
            if block_size % parts == 0 && block_size / parts >= order {
                lemma_partitions_total(bits, p2, (4 + method) as nat, block_size / parts, order, parts);
                lemma_fundamental_div_mod(block_size as int, parts as int);
                assert(parts * (block_size / parts) == (block_size / parts) * parts) by (nonlinear_arith);
            }
        }
    }
}

} // verus!
