use vstd::prelude::*;

use crate::bits::{
    bit_spec, bits_value, bytes_spec, parsed, unsigned_spec, lemma_fields_fit,
};
use crate::bitstream::{BitstreamReader, reads_on};
use crate::error::Error;
use crate::metadata_types::{
    MetadataBlock, MetadataBlockData, MetadataBlockModel, MetadataBlockStreamInfo,
    MetadataContentModel, blocks_view,
};

verus! {

/// The four bytes that open every stream: "fLaC".
pub open spec fn magic_bytes() -> Seq<u8> {
    seq![0x66u8, 0x4Cu8, 0x61u8, 0x43u8]
}

/// Reading the stream marker.
pub open spec fn magic_spec(bits: Seq<bool>, pos: nat) -> Result<((), nat), Error> {
    match bytes_spec(bits, pos, 4) {
        Ok((b, p)) => if b == magic_bytes() {
            Ok(((), p))
        } else {
            Err(Error::Content)
        },
        Err(e) => Err(e),
    }
}

/// Reading a STREAMINFO payload: nine fixed-width fields, 272 bits in all.
pub open spec fn stream_info_spec(bits: Seq<bool>, pos: nat) -> Result<(MetadataBlockStreamInfo, nat), Error> {
    if pos + 272 <= bits.len() {
        Ok((
            MetadataBlockStreamInfo {
                min_block_size: bits_value(bits, pos, 16) as u16,
                max_block_size: bits_value(bits, pos + 16, 16) as u16,
                min_frame_size: bits_value(bits, pos + 32, 24) as u32,
                max_frame_size: bits_value(bits, pos + 56, 24) as u32,
                sample_rate: bits_value(bits, pos + 80, 20) as u32,
                num_channels: (bits_value(bits, pos + 100, 3) + 1) as u8,
                sample_depth: (bits_value(bits, pos + 103, 5) + 1) as u8,
                num_samples: bits_value(bits, pos + 108, 36) as u64,
                decoded_checksum: bits_value(bits, pos + 144, 128) as u128,
            },
            pos + 272,
        ))
    } else {
        Err(Error::IO)
    }
}

/// The content of a block of type 1..=6, from its payload.
pub open spec fn payload_content(block_type: u8, payload: Seq<u8>) -> MetadataContentModel {
    if block_type == 1 {
        MetadataContentModel::Padding
    } else if block_type == 2 {
        MetadataContentModel::Application(payload)
    } else if block_type == 3 {
        MetadataContentModel::SeekTable(payload)
    } else if block_type == 4 {
        MetadataContentModel::VorbisComment(payload)
    } else if block_type == 5 {
        MetadataContentModel::CueSheet(payload)
    } else {
        MetadataContentModel::Picture(payload)
    }
}

/// Reading one metadata block: the last-block flag, a 7-bit type, a 24-bit
/// payload length, then the payload by type.
pub open spec fn metadata_block_spec(bits: Seq<bool>, pos: nat) -> Result<(MetadataBlockModel, nat), Error> {
    match bit_spec(bits, pos) {
        Ok((is_last, p1)) => match unsigned_spec(bits, p1, 7) {
            Ok((t, p2)) => match unsigned_spec(bits, p2, 24) {
                Ok((length, p3)) => {
                    let block_type = t as u8;
                    if block_type == 0 {
                        match stream_info_spec(bits, p3) {
                            Ok((si, p4)) => Ok((
                                MetadataBlockModel { is_last, content: MetadataContentModel::StreamInfo(si) },
                                p4,
                            )),
                            Err(e) => Err(e),
                        }
                    } else if block_type <= 6 {
                        match bytes_spec(bits, p3, length as nat) {
                            Ok((payload, p4)) => Ok((
                                MetadataBlockModel { is_last, content: payload_content(block_type, payload) },
                                p4,
                            )),
                            Err(e) => Err(e),
                        }
                    } else if block_type == 127 {
                        Ok((MetadataBlockModel { is_last, content: MetadataContentModel::Invalid }, p3))
                    } else {
                        Ok((MetadataBlockModel { is_last, content: MetadataContentModel::Reserved(block_type) }, p3))
                    }
                },
                Err(e) => Err(e),
            },
            Err(e) => Err(e),
        },
        Err(e) => Err(e),
    }
}

/// Reads the stream marker "fLaC"; any other four bytes are malformed content.
pub fn read_magic<R: BitstreamReader>(reader: &mut R) -> (r: Result<(), Error>)
    requires
        old(reader).wf(),
    ensures
        reads_on(*old(reader), *final(reader)),
        parsed(r, magic_spec(old(reader).bits(), old(reader).position()), final(reader).position()),
{
    let magic = reader.read_bytes(4)?;
    if magic[0] == 0x66 && magic[1] == 0x4C && magic[2] == 0x61 && magic[3] == 0x43 {
        assert(magic@ =~= magic_bytes());
        Ok(())
    } else {
        assert(magic@ != magic_bytes()) by {
            if magic@ == magic_bytes() {
                assert(magic@[0] == 0x66 && magic@[1] == 0x4C && magic@[2] == 0x61 && magic@[3] == 0x43);
            }
        }
        Err(Error::Content)
    }
}

/// Reads a STREAMINFO payload, applying the plus-one of the channel count and
/// of the sample depth.
pub fn read_stream_info_block<R: BitstreamReader>(reader: &mut R) -> (r: Result<MetadataBlockStreamInfo, Error>)
    requires
        old(reader).wf(),
    ensures
        reads_on(*old(reader), *final(reader)),
        parsed(r, stream_info_spec(old(reader).bits(), old(reader).position()), final(reader).position()),
{
    proof {
        lemma_fields_fit(reader.bits());
    }
    let min_block_size = reader.read_unsigned(16)? as u16;
    let max_block_size = reader.read_unsigned(16)? as u16;
    let min_frame_size = reader.read_unsigned(24)? as u32;
    let max_frame_size = reader.read_unsigned(24)? as u32;
    let sample_rate = reader.read_unsigned(20)? as u32;
    let num_channels = reader.read_unsigned(3)? as u8 + 1;
    let sample_depth = reader.read_unsigned(5)? as u8 + 1;
    let num_samples = reader.read_unsigned(36)? as u64;
    let decoded_checksum = reader.read_unsigned(128)?;
    Ok(MetadataBlockStreamInfo {
        min_block_size,
        max_block_size,
        min_frame_size,
        max_frame_size,
        sample_rate,
        num_channels,
        sample_depth,
        num_samples,
        decoded_checksum,
    })
}

/// Reads one metadata block. STREAMINFO is decoded; the payloads of types 1..=6
/// are consumed (and kept but for padding); types 7..=126 are reserved and 127 is
/// invalid, both without a payload read.
pub fn read_metadata_block<R: BitstreamReader>(reader: &mut R) -> (r: Result<MetadataBlock, Error>)
    requires
        old(reader).wf(),
    ensures
        reads_on(*old(reader), *final(reader)),
        match metadata_block_spec(old(reader).bits(), old(reader).position()) {
            Ok((b, p)) => r is Ok && r->Ok_0@ == b && final(reader).position() == p,
            Err(e) => r == Err::<MetadataBlock, Error>(e),
        },
{
    proof {
        lemma_fields_fit(reader.bits());
    }
    let is_last = reader.read_bit()?;
    let block_type = reader.read_unsigned(7)? as u8;
    let length = reader.read_unsigned(24)? as u32;
    let content = if block_type == 0 {
        MetadataBlockData::StreamInfo(read_stream_info_block(reader)?)
    } else if block_type == 1 {
        reader.read_bytes(length as usize)?;
        MetadataBlockData::Padding
    } else if block_type == 2 {
        MetadataBlockData::Application(reader.read_bytes(length as usize)?)
    } else if block_type == 3 {
        MetadataBlockData::SeekTable(reader.read_bytes(length as usize)?)
    } else if block_type == 4 {
        MetadataBlockData::VorbisComment(reader.read_bytes(length as usize)?)
    } else if block_type == 5 {
        MetadataBlockData::CueSheet(reader.read_bytes(length as usize)?)
    } else if block_type == 6 {
        MetadataBlockData::Picture(reader.read_bytes(length as usize)?)
    } else if block_type == 127 {
        MetadataBlockData::Invalid
    } else {
        MetadataBlockData::Reserved(block_type)
    };
    Ok(MetadataBlock { is_last, content })
}

/// Reading the chain of metadata blocks up to the one flagged last. STREAMINFO
/// comes first and only first; a chain that breaks this is malformed.
pub open spec fn metadata_chain_spec(bits: Seq<bool>, pos: nat, first: bool) -> Result<(Seq<MetadataBlockModel>, nat), Error>
    decreases bits.len() - pos,
{
    match metadata_block_spec(bits, pos) {
        Ok((b, p)) => if first != (b.content is StreamInfo) {
            Err(Error::Content)
        } else if b.is_last {
            Ok((seq![b], p))
        } else {
            match metadata_chain_spec(bits, p, false) {
                Ok((rest, q)) => Ok((seq![b] + rest, q)),
                Err(e) => Err(e),
            }
        },
        Err(e) => Err(e),
    }
}

/// A well-formed chain: STREAMINFO first and nowhere else, and only the final
/// block flagged last, so that the count of blocks is the index of the first
/// block flagged last, plus one.
pub open spec fn is_metadata_chain(blocks: Seq<MetadataBlockModel>) -> bool {
    &&& blocks.len() >= 1
    &&& blocks[0].content is StreamInfo
    &&& forall|i: int| 1 <= i < blocks.len() ==> !(#[trigger] blocks[i].content is StreamInfo)
    &&& blocks.last().is_last
    &&& forall|i: int| 0 <= i < blocks.len() - 1 ==> !(#[trigger] blocks[i].is_last)
}

spec fn chain_prefix(
    done: Seq<MetadataBlockModel>,
    rest: Result<(Seq<MetadataBlockModel>, nat), Error>,
) -> Result<(Seq<MetadataBlockModel>, nat), Error> {
    match rest {
        Ok((t, q)) => Ok((done + t, q)),
        Err(e) => Err(e),
    }
}

proof fn lemma_chain_shape(bits: Seq<bool>, pos: nat, first: bool)
    ensures
        metadata_chain_spec(bits, pos, first) is Ok ==> {
            let v = metadata_chain_spec(bits, pos, first)->Ok_0.0;
            &&& v.len() >= 1
            &&& (v[0].content is StreamInfo) == first
            &&& forall|i: int| 1 <= i < v.len() ==> !(#[trigger] v[i].content is StreamInfo)
            &&& v.last().is_last
            &&& forall|i: int| 0 <= i < v.len() - 1 ==> !(#[trigger] v[i].is_last)
        },
    decreases bits.len() - pos,
{
    if let Ok((b, p)) = metadata_block_spec(bits, pos) {
        if first == (b.content is StreamInfo) && !b.is_last {
            lemma_chain_shape(bits, p, false);
            if let Ok((rest, q)) = metadata_chain_spec(bits, p, false) {
                let v = seq![b] + rest;
                assert forall|i: int| 1 <= i < v.len() implies !(#[trigger] v[i].content is StreamInfo) by {
                    assert(v[i] == rest[i - 1]);
                }
                assert forall|i: int| 0 <= i < v.len() - 1 implies !(#[trigger] v[i].is_last) by {
                    if i > 0 {
                        assert(v[i] == rest[i - 1]);
                    }
                }
            }
        }
    }
}

/// A chain of metadata blocks that parses is well formed: exactly one STREAMINFO,
/// in first place, and the chain ends at the first block flagged last.
pub proof fn lemma_metadata_chain_shape(bits: Seq<bool>, pos: nat)
    ensures
        metadata_chain_spec(bits, pos, true) is Ok ==> is_metadata_chain(
            metadata_chain_spec(bits, pos, true)->Ok_0.0,
        ),
{
    lemma_chain_shape(bits, pos, true);
}

/// Reads metadata blocks up to and including the one flagged last. The first
/// must be STREAMINFO and no other may be; otherwise the content is malformed.
pub fn read_metadata<R: BitstreamReader>(reader: &mut R) -> (r: Result<Vec<MetadataBlock>, Error>)
    requires
        old(reader).wf(),
    ensures
        reads_on(*old(reader), *final(reader)),
        match metadata_chain_spec(old(reader).bits(), old(reader).position(), true) {
            Ok((v, p)) => r is Ok && blocks_view(r->Ok_0@) == v && final(reader).position() == p,
            Err(e) => r == Err::<Vec<MetadataBlock>, Error>(e),
        },
        r is Ok ==> is_metadata_chain(blocks_view(r->Ok_0@)),
{
    let ghost bits = reader.bits();
    let ghost start = reader.position();
    proof {
        lemma_metadata_chain_shape(bits, start);
    }
    let mut blocks: Vec<MetadataBlock> = Vec::new();
    let mut first = true;
    proof {
        assert(blocks_view(blocks@) =~= Seq::empty());
        if let Ok((t, q)) = metadata_chain_spec(bits, start, true) {
            assert(blocks_view(blocks@) + t =~= t);
        }
    }
    loop
        invariant
            reader.wf(),
            reader.bits() == bits,
            bits == old(reader).bits(),
            start == old(reader).position(),
            start <= reader.position(),
            first == (blocks@.len() == 0),
            chain_prefix(blocks_view(blocks@), metadata_chain_spec(bits, reader.position(), first))
                == metadata_chain_spec(bits, start, true),
            metadata_chain_spec(bits, start, true) is Ok ==> is_metadata_chain(
                metadata_chain_spec(bits, start, true)->Ok_0.0,
            ),
        decreases bits.len() - reader.position(),
    {
        let ghost pos = reader.position();
        let ghost done = blocks_view(blocks@);
        let block = read_metadata_block(reader)?;
        let is_stream_info = match block.content {
            MetadataBlockData::StreamInfo(_) => true,
            _ => false,
        };
        if first != is_stream_info {
            return Err(Error::Content);
        }
        let last = block.is_last;
        proof {
            assert(blocks_view(blocks@.push(block)) =~= done.push(block@));
            if !last {
                match metadata_chain_spec(bits, reader.position(), false) {
                    Ok((t, q)) => {
                        assert(done + (seq![block@] + t) =~= done.push(block@) + t);
                    },
                    Err(e) => {},
                }
            } else {
                assert(done + seq![block@] =~= done.push(block@));
            }
        }
        blocks.push(block);
        if last {
            return Ok(blocks);
        }
        first = false;
    }
}

} // verus!
