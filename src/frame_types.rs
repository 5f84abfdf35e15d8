use vstd::prelude::*;

verus! {

/// One audio frame: the resolved header fields, one subframe per channel, and
/// the frame's trailing CRC-16 (captured, not checked).
#[derive(Debug, Clone)]
pub struct Frame {
    pub is_variable: bool,
    pub block_size: u32,
    pub sample_rate: u32,
    pub num_channels: u8,
    pub channel_assignment: ChannelAssignment,
    pub sample_depth: u8,
    pub frame_or_sample_number: Option<u64>,
    pub header_crc: u8,
    pub subframes: Vec<Subframe>,
    pub overall_crc: u16,
}

/// How the channels of a frame relate.
#[derive(Debug, Clone, Copy, PartialEq, Eq, Structural)]
pub enum ChannelAssignment {
    Direct,
    LeftSide,
    RightSide,
    MidSide,
}

/// The header fields of a frame, with every lookup code resolved.
#[derive(Debug, Clone, Copy)]
pub struct FrameHeader {
    pub is_variable: bool,
    pub block_size: u32,
    pub sample_rate: u32,
    pub num_channels: u8,
    pub channel_assignment: ChannelAssignment,
    pub sample_depth: u8,
    pub frame_or_sample_number: Option<u64>,
    pub header_crc: u8,
}

/// The encoded samples of one channel.
#[derive(Debug, Clone)]
pub struct Subframe {
    pub wasted_bits: u8,
    pub data: SubframeData,
}

#[derive(Debug, Clone)]
pub enum SubframeData {
    Constant(ConstantSubframe),
    Verbatim(VerbatimSubframe),
    Fixed(FixedSubframe),
    LPC(LPCSubframe),
}

/// One sample, repeated for the whole block.
#[derive(Debug, Clone, Copy)]
pub struct ConstantSubframe {
    pub content: i64,
}

/// Every sample of the block, unencoded.
#[derive(Debug, Clone)]
pub struct VerbatimSubframe {
    pub content: Vec<i64>,
}

/// A fixed predictor of order 0..=4: warmup samples, then the residual.
#[derive(Debug, Clone)]
pub struct FixedSubframe {
    pub order: u8,
    pub warmup: Vec<i64>,
    pub residual: Residual,
}

/// A linear predictor of order 1..=32 with explicit coefficients.
#[derive(Debug, Clone)]
pub struct LPCSubframe {
    pub order: u8,
    pub warmup: Vec<i64>,
    /// Bits per coefficient, 1..=15.
    pub coefficient_precision: u8,
    pub shift: i8,
    pub coefficients: Vec<i16>,
    pub residual: Residual,
}

/// The prediction errors of a subframe, in `2^order` partitions.
#[derive(Debug, Clone)]
pub struct Residual {
    /// Bits of each partition's parameter: 4 or 5.
    pub parameter_size: u8,
    /// The partition order.
    pub order: u8,
    pub partitions: Vec<RICEPartition>,
}

/// One run of residual samples sharing an encoding parameter; the all-ones
/// parameter marks raw samples.
#[derive(Debug, Clone)]
pub struct RICEPartition {
    pub encoding_parameter: u8,
    pub residual: Vec<i32>,
}

pub struct PartitionModel {
    pub encoding_parameter: u8,
    pub residual: Seq<i32>,
}

pub struct ResidualModel {
    pub parameter_size: u8,
    pub order: u8,
    pub partitions: Seq<PartitionModel>,
}

pub enum SubframeDataModel {
    Constant(i64),
    Verbatim(Seq<i64>),
    Fixed { order: u8, warmup: Seq<i64>, residual: ResidualModel },
    LPC {
        order: u8,
        warmup: Seq<i64>,
        coefficient_precision: u8,
        shift: i8,
        coefficients: Seq<i16>,
        residual: ResidualModel,
    },
}

pub struct SubframeModel {
    pub wasted_bits: u8,
    pub data: SubframeDataModel,
}

pub struct FrameModel {
    pub header: FrameHeader,
    pub subframes: Seq<SubframeModel>,
    pub overall_crc: u16,
}

impl View for RICEPartition {
    type V = PartitionModel;

    open spec fn view(&self) -> PartitionModel {
        PartitionModel { encoding_parameter: self.encoding_parameter, residual: self.residual@ }
    }
}

pub open spec fn partitions_view(ps: Seq<RICEPartition>) -> Seq<PartitionModel> {
    ps.map_values(|p: RICEPartition| p@)
}

impl View for Residual {
    type V = ResidualModel;

    open spec fn view(&self) -> ResidualModel {
        ResidualModel {
            parameter_size: self.parameter_size,
            order: self.order,
            partitions: partitions_view(self.partitions@),
        }
    }
}

impl View for SubframeData {
    type V = SubframeDataModel;

    open spec fn view(&self) -> SubframeDataModel {
        match self {
            SubframeData::Constant(c) => SubframeDataModel::Constant(c.content),
            SubframeData::Verbatim(v) => SubframeDataModel::Verbatim(v.content@),
            SubframeData::Fixed(f) => SubframeDataModel::Fixed {
                order: f.order,
                warmup: f.warmup@,
                residual: f.residual@,
            },
            SubframeData::LPC(l) => SubframeDataModel::LPC {
                order: l.order,
                warmup: l.warmup@,
                coefficient_precision: l.coefficient_precision,
                shift: l.shift,
                coefficients: l.coefficients@,
                residual: l.residual@,
            },
        }
    }
}

impl View for Subframe {
    type V = SubframeModel;

    open spec fn view(&self) -> SubframeModel {
        SubframeModel { wasted_bits: self.wasted_bits, data: self.data@ }
    }
}

pub open spec fn subframes_view(s: Seq<Subframe>) -> Seq<SubframeModel> {
    s.map_values(|x: Subframe| x@)
}

impl Frame {
    /// The header fields of this frame.
    pub open spec fn header_spec(&self) -> FrameHeader {
        FrameHeader {
            is_variable: self.is_variable,
            block_size: self.block_size,
            sample_rate: self.sample_rate,
            num_channels: self.num_channels,
            channel_assignment: self.channel_assignment,
            sample_depth: self.sample_depth,
            frame_or_sample_number: self.frame_or_sample_number,
            header_crc: self.header_crc,
        }
    }
}

impl View for Frame {
    type V = FrameModel;

    open spec fn view(&self) -> FrameModel {
        FrameModel {
            header: self.header_spec(),
            subframes: subframes_view(self.subframes@),
            overall_crc: self.overall_crc,
        }
    }
}

} // verus!
