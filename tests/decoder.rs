use muflac::bitstream::{BitstreamReader, BufferedBitstreamReader};
use muflac::block_parser::{read_magic, read_metadata, read_metadata_block, read_stream_info_block};
use muflac::error::Error;
use muflac::frame_parser::{read_frame, read_frame_header};
use muflac::frame_types::{ChannelAssignment, SubframeData};
use muflac::metadata_types::{MetadataBlockData, MetadataBlockStreamInfo};
use muflac::rice::read_rice;

/// Builds a byte stream bit by bit, most significant bit first.
struct BitWriter {
    bits: Vec<bool>,
}

impl BitWriter {
    fn new() -> Self {
        BitWriter { bits: Vec::new() }
    }

    fn put(&mut self, value: u128, n: u32) -> &mut Self {
        for i in (0..n).rev() {
            self.bits.push((value >> i) & 1 == 1);
        }
        self
    }

    fn put_signed(&mut self, value: i64, n: u32) -> &mut Self {
        let mask: u128 = if n == 128 { u128::MAX } else { (1u128 << n) - 1 };
        self.put((value as i128 as u128) & mask, n)
    }

    fn put_rice(&mut self, s: i64, k: u32) -> &mut Self {
        let u: u64 = if s >= 0 { (2 * s) as u64 } else { (-2 * s - 1) as u64 };
        for _ in 0..(u >> k) {
            self.bits.push(false);
        }
        self.bits.push(true);
        self.put((u & ((1u64 << k) - 1)) as u128, k)
    }

    fn align(&mut self) -> &mut Self {
        while self.bits.len() % 8 != 0 {
            self.bits.push(false);
        }
        self
    }

    fn bytes(&self) -> Vec<u8> {
        let mut out = Vec::new();
        for chunk in self.bits.chunks(8) {
            let mut b = 0u8;
            for (i, bit) in chunk.iter().enumerate() {
                if *bit {
                    b |= 1 << (7 - i);
                }
            }
            out.push(b);
        }
        out
    }
}

fn reader(bytes: Vec<u8>) -> BufferedBitstreamReader {
    BufferedBitstreamReader::new(bytes)
}

fn stream_info_payload() -> Vec<u8> {
    let mut p = vec![0x10, 0x00, 0x10, 0x00, 0, 0, 0, 0, 0, 0, 0x0A, 0xC4, 0x42, 0xF0, 0, 0, 0, 0];
    p.extend_from_slice(&[0u8; 16]);
    p
}

fn stream_info_16bit() -> MetadataBlockStreamInfo {
    MetadataBlockStreamInfo {
        min_block_size: 4096,
        max_block_size: 4096,
        min_frame_size: 0,
        max_frame_size: 0,
        sample_rate: 44100,
        num_channels: 2,
        sample_depth: 16,
        num_samples: 0,
        decoded_checksum: 0,
    }
}

/// A frame header with the given codes, frame number 0 and a CRC-8 of 0xAB.
fn frame_header(w: &mut BitWriter, block_size_code: u128, sample_rate_code: u128, channel_code: u128, depth_code: u128) {
    w.put(0x3FFE, 14).put(0, 1).put(0, 1);
    w.put(block_size_code, 4).put(sample_rate_code, 4).put(channel_code, 4).put(depth_code, 3).put(0, 1);
    w.put(0, 8).put(0xAB, 8);
}

#[test]
fn magic_only() {
    let mut r = reader(vec![0x66, 0x4C, 0x61, 0x43]);
    assert_eq!(read_magic(&mut r), Ok(()));
    assert_eq!(r.get_total_position(), 32);
}

#[test]
fn magic_mismatch() {
    let mut r = reader(vec![0x66, 0x4C, 0x61, 0x44]);
    assert_eq!(read_magic(&mut r), Err(Error::Content));
}

#[test]
fn magic_truncated() {
    let mut r = reader(vec![0x66, 0x4C, 0x61]);
    assert_eq!(read_magic(&mut r), Err(Error::IO));
}

#[test]
fn minimal_stream_info() {
    let mut bytes = vec![0x80, 0x00, 0x00, 0x22];
    bytes.extend(stream_info_payload());
    let mut r = reader(bytes);
    let block = read_metadata_block(&mut r).unwrap();
    assert!(block.is_last);
    match block.content {
        MetadataBlockData::StreamInfo(si) => assert_eq!(si, stream_info_16bit()),
        other => panic!("expected STREAMINFO, got {:?}", other),
    }
    assert_eq!(r.get_total_position(), 8 * 38);
}

#[test]
fn stream_info_payload_alone() {
    let mut r = reader(stream_info_payload());
    assert_eq!(read_stream_info_block(&mut r), Ok(stream_info_16bit()));
    let mut short = reader(stream_info_payload()[..33].to_vec());
    assert_eq!(read_stream_info_block(&mut short), Err(Error::IO));
}

#[test]
fn padding_then_end() {
    let mut bytes = vec![0x66, 0x4C, 0x61, 0x43, 0x00, 0x00, 0x00, 0x22];
    bytes.extend(stream_info_payload());
    bytes.extend_from_slice(&[0x81, 0x00, 0x00, 0x08]);
    bytes.extend_from_slice(&[0u8; 8]);
    let mut r = reader(bytes.clone());
    read_magic(&mut r).unwrap();
    let blocks = read_metadata(&mut r).unwrap();
    assert_eq!(blocks.len(), 2);
    assert!(!blocks[0].is_last);
    assert!(blocks[1].is_last);
    assert!(matches!(blocks[1].content, MetadataBlockData::Padding));
    assert_eq!(r.get_total_position() as usize, 8 * bytes.len());
}

#[test]
fn chain_must_open_with_stream_info() {
    let mut r = reader(vec![0x81, 0x00, 0x00, 0x01, 0x00]);
    assert!(matches!(read_metadata(&mut r), Err(Error::Content)));
}

#[test]
fn chain_with_second_stream_info_is_malformed() {
    let mut bytes = vec![0x00, 0x00, 0x00, 0x22];
    bytes.extend(stream_info_payload());
    bytes.extend_from_slice(&[0x80, 0x00, 0x00, 0x22]);
    bytes.extend(stream_info_payload());
    let mut r = reader(bytes);
    assert!(matches!(read_metadata(&mut r), Err(Error::Content)));
}

#[test]
fn block_kinds() {
    let mut r = reader(vec![0x02, 0x00, 0x00, 0x02, 0xAA, 0xBB, 0x7F, 0x00, 0x00, 0x05, 0x89, 0x00, 0x00, 0x00]);
    match read_metadata_block(&mut r).unwrap().content {
        MetadataBlockData::Application(b) => assert_eq!(b, vec![0xAA, 0xBB]),
        other => panic!("expected application, got {:?}", other),
    }
    let invalid = read_metadata_block(&mut r).unwrap();
    assert!(!invalid.is_last);
    assert!(matches!(invalid.content, MetadataBlockData::Invalid));
    let reserved = read_metadata_block(&mut r).unwrap();
    assert!(reserved.is_last);
    assert!(matches!(reserved.content, MetadataBlockData::Reserved(9)));
}

#[test]
fn raw_payload_blocks_keep_their_bytes() {
    let mut r = reader(vec![0x04, 0x00, 0x00, 0x01, 0x5A, 0x06, 0x00, 0x00, 0x01, 0xA5]);
    assert!(matches!(read_metadata_block(&mut r).unwrap().content, MetadataBlockData::VorbisComment(ref b) if b == &vec![0x5A]));
    assert!(matches!(read_metadata_block(&mut r).unwrap().content, MetadataBlockData::Picture(ref b) if b == &vec![0xA5]));
}

#[test]
fn constant_subframe_frame() {
    let mut r = reader(vec![0xFF, 0xF8, 0x10, 0x00, 0x00, 0xAB, 0x00, 0x12, 0x34, 0xBE, 0xEF]);
    let frame = read_frame(&mut r, &stream_info_16bit()).unwrap();
    assert_eq!(frame.block_size, 192);
    assert_eq!(frame.num_channels, 1);
    assert_eq!(frame.sample_rate, 44100);
    assert_eq!(frame.sample_depth, 16);
    assert_eq!(frame.frame_or_sample_number, Some(0));
    assert_eq!(frame.header_crc, 0xAB);
    assert_eq!(frame.overall_crc, 0xBEEF);
    assert_eq!(frame.channel_assignment, ChannelAssignment::Direct);
    assert_eq!(frame.subframes.len(), 1);
    assert_eq!(frame.subframes[0].wasted_bits, 0);
    match &frame.subframes[0].data {
        SubframeData::Constant(c) => assert_eq!(c.content, 0x1234),
        other => panic!("expected constant, got {:?}", other),
    }
    assert_eq!(r.get_total_position(), 88);
}

#[test]
fn reserved_bit_in_header() {
    let mut r = reader(vec![0xFF, 0xFA, 0x10, 0x00, 0x00, 0xAB]);
    assert!(matches!(read_frame(&mut r, &stream_info_16bit()), Err(Error::Reserved)));
}

#[test]
fn missing_sync_code() {
    let mut r = reader(vec![0xFF, 0xF0, 0x10, 0x00, 0x00, 0xAB]);
    assert!(matches!(read_frame(&mut r, &stream_info_16bit()), Err(Error::Content)));
}

#[test]
fn second_reserved_bit_in_header() {
    let mut r = reader(vec![0xFF, 0xF8, 0x10, 0x01, 0x00, 0xAB]);
    assert!(matches!(read_frame_header(&mut r, &stream_info_16bit()), Err(Error::Reserved)));
}

#[test]
fn header_code_tables() {
    // Block size code 0b1100 (4096), sample rate code 0b1001 (44100), LeftSide, depth code 0b100.
    let mut w = BitWriter::new();
    frame_header(&mut w, 0b1100, 0b1001, 0b1000, 0b100);
    let h = read_frame_header(&mut reader(w.bytes()), &stream_info_16bit()).unwrap();
    assert_eq!(h.block_size, 4096);
    assert_eq!(h.sample_rate, 44100);
    assert_eq!(h.channel_assignment, ChannelAssignment::LeftSide);
    assert_eq!(h.num_channels, 2);
    assert_eq!(h.sample_depth, 16);

    let mut w = BitWriter::new();
    frame_header(&mut w, 0b0101, 0b0011, 0b0101, 0b110);
    let h = read_frame_header(&mut reader(w.bytes()), &stream_info_16bit()).unwrap();
    assert_eq!(h.block_size, 4608);
    assert_eq!(h.sample_rate, 192_000);
    assert_eq!(h.num_channels, 6);
    assert_eq!(h.sample_depth, 32);
}

#[test]
fn deferred_block_size_and_sample_rate() {
    let mut w = BitWriter::new();
    w.put(0x3FFE, 14).put(0, 1).put(1, 1);
    w.put(0b0111, 4).put(0b1110, 4).put(0b1010, 4).put(0b001, 3).put(0, 1);
    w.put(0xC2, 8).put(0x80, 8); // frame number 128 in two bytes
    w.put(999, 16); // block size minus one
    w.put(4410, 16); // tens of Hz
    w.put(0x5C, 8);
    let mut r = reader(w.bytes());
    let h = read_frame_header(&mut r, &stream_info_16bit()).unwrap();
    assert!(h.is_variable);
    assert_eq!(h.frame_or_sample_number, Some(128));
    assert_eq!(h.block_size, 1000);
    assert_eq!(h.sample_rate, 44100);
    assert_eq!(h.channel_assignment, ChannelAssignment::MidSide);
    assert_eq!(h.sample_depth, 8);
    assert_eq!(h.header_crc, 0x5C);
    assert_eq!(r.get_total_position(), 8 * 11);
}

#[test]
fn reserved_header_codes() {
    for (bs, sr, ch, d) in [(0, 0, 0, 0), (1, 0b1111, 0, 0), (1, 0, 0b1011, 0), (1, 0, 0, 0b011), (1, 0, 0, 0b111)] {
        let mut w = BitWriter::new();
        frame_header(&mut w, bs, sr, ch, d);
        assert_eq!(read_frame_header(&mut reader(w.bytes()), &stream_info_16bit()).err(), Some(Error::Reserved));
    }
}

#[test]
fn eight_bit_deferred_sample_rate() {
    let mut w = BitWriter::new();
    w.put(0x3FFE, 14).put(0, 1).put(0, 1);
    w.put(0b0110, 4).put(0b1100, 4).put(0, 4).put(0, 3).put(0, 1);
    w.put(0, 8).put(15, 8).put(48, 8).put(0, 8);
    let h = read_frame_header(&mut reader(w.bytes()), &stream_info_16bit()).unwrap();
    assert_eq!(h.block_size, 16);
    assert_eq!(h.sample_rate, 48);
}

#[test]
fn verbatim_and_wasted_bits() {
    let mut w = BitWriter::new();
    // Block size code 0b0110 with 8-bit value 3 gives 4 samples; depth code 0b001 is 8 bits.
    w.put(0x3FFE, 14).put(0, 1).put(0, 1);
    w.put(0b0110, 4).put(0, 4).put(0, 4).put(0b001, 3).put(0, 1);
    w.put(0, 8).put(3, 8).put(0x11, 8);
    // Subframe: padding 0, verbatim, wasted flag with unary k = 1 (two wasted bits).
    w.put(0, 1).put(1, 6).put(1, 1).put(0b01, 2);
    for s in [1i64, -2, 31, -32] {
        w.put_signed(s, 6);
    }
    w.align().put(0x1234, 16);
    let frame = read_frame(&mut reader(w.bytes()), &stream_info_16bit()).unwrap();
    assert_eq!(frame.block_size, 4);
    assert_eq!(frame.subframes[0].wasted_bits, 2);
    match &frame.subframes[0].data {
        SubframeData::Verbatim(v) => assert_eq!(v.content, vec![1, -2, 31, -32]),
        other => panic!("expected verbatim, got {:?}", other),
    }
    assert_eq!(frame.overall_crc, 0x1234);
}

#[test]
fn side_channel_has_one_more_bit() {
    let mut w = BitWriter::new();
    frame_header(&mut w, 1, 0, 0b1000, 0b001);
    // Channel 0: constant of 8 bits; channel 1 (side): constant of 9 bits.
    w.put(0, 1).put(0, 6).put(0, 1).put_signed(-5, 8);
    w.put(0, 1).put(0, 6).put(0, 1).put_signed(-200, 9);
    w.align().put(0xCAFE, 16);
    let frame = read_frame(&mut reader(w.bytes()), &stream_info_16bit()).unwrap();
    assert_eq!(frame.num_channels, 2);
    match (&frame.subframes[0].data, &frame.subframes[1].data) {
        (SubframeData::Constant(a), SubframeData::Constant(b)) => {
            assert_eq!(a.content, -5);
            assert_eq!(b.content, -200);
        }
        other => panic!("expected two constants, got {:?}", other),
    }
    assert_eq!(frame.overall_crc, 0xCAFE);
}

#[test]
fn fixed_subframe_with_rice_and_escaped_partitions() {
    let mut w = BitWriter::new();
    // 16 samples (code 0b0110, value 15), 8-bit depth, mono.
    w.put(0x3FFE, 14).put(0, 1).put(0, 1);
    w.put(0b0110, 4).put(0, 4).put(0, 4).put(0b001, 3).put(0, 1);
    w.put(0, 8).put(15, 8).put(0, 8);
    // Fixed order 2, two warmup samples.
    w.put(0, 1).put(0b001010, 6).put(0, 1).put_signed(10, 8).put_signed(-10, 8);
    // Residual: Rice (4-bit parameters), partition order 1: two partitions of 8.
    w.put(0, 2).put(1, 4);
    // Partition 0: parameter 2, 8 - 2 = 6 samples.
    w.put(2, 4);
    let first = [0i64, 1, -1, 5, -6, 3];
    for s in first {
        w.put_rice(s, 2);
    }
    // Partition 1: escaped, raw width 4, 8 samples.
    w.put(15, 4).put(4, 5);
    let second = [7i64, -8, 0, 1, -1, 2, -2, 3];
    for s in second {
        w.put_signed(s, 4);
    }
    w.align().put(0, 16);
    let frame = read_frame(&mut reader(w.bytes()), &stream_info_16bit()).unwrap();
    match &frame.subframes[0].data {
        SubframeData::Fixed(f) => {
            assert_eq!(f.order, 2);
            assert_eq!(f.warmup, vec![10, -10]);
            assert_eq!(f.residual.parameter_size, 4);
            assert_eq!(f.residual.order, 1);
            assert_eq!(f.residual.partitions.len(), 2);
            assert_eq!(f.residual.partitions[0].encoding_parameter, 2);
            assert_eq!(f.residual.partitions[0].residual, vec![0, 1, -1, 5, -6, 3]);
            assert_eq!(f.residual.partitions[1].encoding_parameter, 15);
            assert_eq!(f.residual.partitions[1].residual, vec![7, -8, 0, 1, -1, 2, -2, 3]);
            let total: usize = f.residual.partitions.iter().map(|p| p.residual.len()).sum();
            assert_eq!(total, 16 - 2);
        }
        other => panic!("expected fixed, got {:?}", other),
    }
}

#[test]
fn escaped_partition_of_width_zero_is_zeros() {
    let mut w = BitWriter::new();
    frame_header(&mut w, 1, 0, 0, 0b001);
    // Fixed order 0, Rice2 (5-bit parameters), partition order 0, escape 31, width 0.
    w.put(0, 1).put(0b001000, 6).put(0, 1);
    w.put(1, 2).put(0, 4).put(31, 5).put(0, 5);
    w.align().put(0, 16);
    let frame = read_frame(&mut reader(w.bytes()), &stream_info_16bit()).unwrap();
    match &frame.subframes[0].data {
        SubframeData::Fixed(f) => {
            assert_eq!(f.residual.parameter_size, 5);
            assert_eq!(f.residual.partitions[0].residual, vec![0; 192]);
        }
        other => panic!("expected fixed, got {:?}", other),
    }
}

#[test]
fn lpc_subframe() {
    let mut w = BitWriter::new();
    // 4 samples (code 0b0110, value 3), 8-bit depth.
    w.put(0x3FFE, 14).put(0, 1).put(0, 1);
    w.put(0b0110, 4).put(0, 4).put(0, 4).put(0b001, 3).put(0, 1);
    w.put(0, 8).put(3, 8).put(0, 8);
    // LPC of order 2 (type 0b100001), no wasted bits.
    w.put(0, 1).put(0b100001, 6).put(0, 1);
    w.put_signed(100, 8).put_signed(-100, 8);
    w.put(11, 4); // precision 12
    w.put_signed(-3, 5);
    w.put_signed(1500, 12).put_signed(-700, 12);
    w.put(0, 2).put(0, 4).put(1, 4);
    w.put_rice(2, 1).put_rice(-2, 1);
    w.align().put(0, 16);
    let frame = read_frame(&mut reader(w.bytes()), &stream_info_16bit()).unwrap();
    match &frame.subframes[0].data {
        SubframeData::LPC(l) => {
            assert_eq!(l.order, 2);
            assert_eq!(l.warmup, vec![100, -100]);
            assert_eq!(l.coefficient_precision, 12);
            assert_eq!(l.shift, -3);
            assert_eq!(l.coefficients, vec![1500, -700]);
            assert_eq!(l.residual.partitions[0].residual, vec![2, -2]);
        }
        other => panic!("expected LPC, got {:?}", other),
    }
}

#[test]
fn reserved_subframe_patterns() {
    // Subframe type 2 is reserved.
    let mut w = BitWriter::new();
    frame_header(&mut w, 1, 0, 0, 0b001);
    w.put(0, 1).put(2, 6).put(0, 1).align().put(0, 32);
    assert_eq!(read_frame(&mut reader(w.bytes()), &stream_info_16bit()).err(), Some(Error::Reserved));
    // LPC precision code 0b1111 is reserved.
    let mut w = BitWriter::new();
    frame_header(&mut w, 1, 0, 0, 0b001);
    w.put(0, 1).put(0b100000, 6).put(0, 1).put_signed(1, 8).put(15, 4).align().put(0, 32);
    assert_eq!(read_frame(&mut reader(w.bytes()), &stream_info_16bit()).err(), Some(Error::Reserved));
    // Residual coding method 0b10 is reserved.
    let mut w = BitWriter::new();
    frame_header(&mut w, 1, 0, 0, 0b001);
    w.put(0, 1).put(0b001000, 6).put(0, 1).put(2, 2).align().put(0, 32);
    assert_eq!(read_frame(&mut reader(w.bytes()), &stream_info_16bit()).err(), Some(Error::Reserved));
}

#[test]
fn malformed_subframes() {
    // Padding bit set.
    let mut w = BitWriter::new();
    frame_header(&mut w, 1, 0, 0, 0b001);
    w.put(1, 1).align().put(0, 32);
    assert_eq!(read_frame(&mut reader(w.bytes()), &stream_info_16bit()).err(), Some(Error::Content));
    // As many wasted bits as the sample depth.
    let mut w = BitWriter::new();
    frame_header(&mut w, 1, 0, 0, 0b001);
    w.put(0, 1).put(0, 6).put(1, 1).put(1, 8).align().put(0, 32);
    assert_eq!(read_frame(&mut reader(w.bytes()), &stream_info_16bit()).err(), Some(Error::Content));
    // Partition order 7 does not divide a block of 192 evenly.
    let mut w = BitWriter::new();
    frame_header(&mut w, 1, 0, 0, 0b001);
    w.put(0, 1).put(0b001000, 6).put(0, 1).put(0, 2).put(7, 4).align().put(0, 32);
    assert_eq!(read_frame(&mut reader(w.bytes()), &stream_info_16bit()).err(), Some(Error::Content));
    // Non-zero padding before the frame CRC: a 7-bit constant leaves one bit to the byte boundary.
    let mut si = stream_info_16bit();
    si.sample_depth = 7;
    let mut w = BitWriter::new();
    frame_header(&mut w, 1, 0, 0, 0);
    w.put(0, 1).put(0, 6).put(0, 1).put_signed(3, 7).put(1, 1).put(0, 16);
    assert_eq!(read_frame(&mut reader(w.bytes()), &si).err(), Some(Error::Content));
}

#[test]
fn truncated_frame_fails_with_io() {
    let bytes = vec![0xFF, 0xF8, 0x10, 0x00, 0x00, 0xAB, 0x00, 0x12, 0x34, 0xBE];
    assert!(matches!(read_frame(&mut reader(bytes), &stream_info_16bit()), Err(Error::IO)));
}

#[test]
fn read_signed_of_one_bit() {
    let mut r = reader(vec![0b0100_0000]);
    assert_eq!(r.read_signed(1), Ok(0));
    assert_eq!(r.read_signed(1), Ok(-1));
}

#[test]
fn read_signed_matches_unsigned_reinterpreted() {
    let mut r = reader(vec![0b1011_0110, 0x80, 0, 0, 0, 0, 0, 0, 0x01]);
    assert_eq!(r.read_signed(5), Ok(0b10110 - 32));
    assert_eq!(r.read_signed(3), Ok(0b110 - 8));
    assert_eq!(r.read_signed(64), Ok(i64::MIN + 1));
}

#[test]
fn split_reads_reconstruct_the_bits() {
    let bytes = vec![0b1011_0011, 0b0101_1100, 0xFF];
    let mut whole = reader(bytes.clone());
    let w = whole.read_unsigned(12).unwrap();
    let mut parts = reader(bytes);
    let hi = parts.read_unsigned(5).unwrap();
    let lo = parts.read_unsigned(7).unwrap();
    assert_eq!(w, (hi << 7) | lo);
    assert_eq!(w, 0b1011_0011_0101);
    assert_eq!(whole.get_total_position(), parts.get_total_position());
}

#[test]
fn read_unsigned_of_zero_and_full_width() {
    let mut r = reader(vec![0xFF; 16]);
    assert_eq!(r.read_unsigned(0), Ok(0));
    assert_eq!(r.get_total_position(), 0);
    assert_eq!(r.read_unsigned(128), Ok(u128::MAX));
    assert_eq!(r.read_unsigned(1), Err(Error::IO));
}

#[test]
fn unary_then_bit() {
    let mut r = reader(vec![0b0001_1000]);
    assert_eq!(r.read_unary(true), Ok(3));
    assert_eq!(r.get_total_position(), 4);
    assert_eq!(r.read_bit(), Ok(true));
    assert_eq!(r.get_total_position(), 5);
    assert_eq!(r.read_unary(false), Ok(0));
    let mut none = reader(vec![0x00]);
    assert_eq!(none.read_unary(true), Err(Error::IO));
}

#[test]
fn bytes_aligned_and_unaligned() {
    let data = vec![0xA5, 0x3C, 0x0F, 0xF0];
    let mut r = reader(data.clone());
    assert_eq!(r.read_bytes(2), Ok(vec![0xA5, 0x3C]));
    let mut u = reader(data);
    assert_eq!(u.read_bit(), Ok(true));
    let by_bytes = u.read_bytes(2).unwrap();
    let mut v = reader(vec![0xA5, 0x3C, 0x0F, 0xF0]);
    v.read_bit().unwrap();
    let a = v.read_unsigned(8).unwrap() as u8;
    let b = v.read_unsigned(8).unwrap() as u8;
    assert_eq!(by_bytes, vec![a, b]);
    assert_eq!(by_bytes, vec![0x4A, 0x78]);
    assert_eq!(u.get_total_position(), 17);
    assert_eq!(u.read_bytes(2), Err(Error::IO));
    assert_eq!(reader(vec![]).read_bytes(0), Ok(vec![]));
}

#[test]
fn position_sums_requested_widths() {
    let mut r = reader(vec![0x12, 0x34, 0x56, 0x78, 0x9A, 0xBC]);
    r.read_bit().unwrap();
    r.read_unsigned(5).unwrap();
    r.read_signed(7).unwrap();
    r.read_bytes(2).unwrap();
    r.read_unsigned(0).unwrap();
    assert_eq!(r.get_total_position(), 1 + 5 + 7 + 16);
}

#[test]
fn utf8_integers() {
    assert_eq!(reader(vec![0x7F]).read_utf8_uint(4), Ok(0x7F));
    assert_eq!(reader(vec![0xC2, 0x80]).read_utf8_uint(4), Ok(0x80));
    assert_eq!(reader(vec![0xE2, 0x82, 0xAC]).read_utf8_uint(4), Ok(0x20AC));
    assert_eq!(
        reader(vec![0xFE, 0xBF, 0xBF, 0xBF, 0xBF, 0xBF, 0xBF]).read_utf8_uint(7),
        Ok((1u64 << 36) - 1)
    );
    assert_eq!(reader(vec![0xF8, 0x88, 0x80, 0x80, 0x80]).read_utf8_uint(4), Err(Error::TooLong));
    assert_eq!(reader(vec![0xF8, 0x88, 0x80, 0x80, 0x80]).read_utf8_uint(5), Ok(0x200000));
    assert_eq!(reader(vec![0x80]).read_utf8_uint(4), Err(Error::UTF8));
    assert_eq!(reader(vec![0xFF]).read_utf8_uint(7), Err(Error::UTF8));
    assert_eq!(reader(vec![0xC2, 0x41]).read_utf8_uint(4), Err(Error::UTF8));
    assert_eq!(reader(vec![0xC2]).read_utf8_uint(4), Err(Error::IO));
}

#[test]
fn rice_round_trip_on_values() {
    for k in [0u8, 1, 2, 5, 14, 30] {
        let values: Vec<i64> = if k < 5 {
            vec![0, 1, -1, 7, -8, 20, -21]
        } else {
            vec![0, 1, -1, 1000, -1000, (1i64 << 31) - 1, -(1i64 << 31) + 1]
        };
        for s in values {
            let mut w = BitWriter::new();
            w.put_rice(s, k as u32).put(1, 1);
            let len = w.bits.len() as u64 - 1;
            let mut r = reader(w.align().bytes());
            assert_eq!(read_rice(&mut r, k), Ok(s as i32), "s = {}, k = {}", s, k);
            assert_eq!(r.get_total_position(), len);
        }
    }
}

#[test]
fn rice_exact_codes() {
    // -3 with k = 2 folds to 5: quotient 1, remainder 1: bits 0 1 01.
    assert_eq!(read_rice(&mut reader(vec![0b0101_0000]), 2), Ok(-3));
    // 4 with k = 0 folds to 8: eight zeros then a one.
    assert_eq!(read_rice(&mut reader(vec![0x00, 0x80]), 0), Ok(4));
}

#[test]
fn rice_composite_too_large_is_malformed() {
    // k = 30 and quotient 4: the composite is 2^32.
    let mut w = BitWriter::new();
    w.put(0, 4).put(1, 1).put(0, 30);
    assert_eq!(read_rice(&mut reader(w.align().bytes()), 30), Err(Error::Content));
}
