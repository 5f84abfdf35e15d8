use vstd::prelude::*;

verus! {

/// One metadata block: whether it ends the chain, and what it holds.
#[derive(Debug, Clone)]
pub struct MetadataBlock {
    pub is_last: bool,
    pub content: MetadataBlockData,
}

/// The content of a metadata block, by block type. Blocks other than STREAMINFO
/// keep their payload as raw bytes.
#[derive(Debug, Clone)]
pub enum MetadataBlockData {
    StreamInfo(MetadataBlockStreamInfo),
    /// Padding: the payload is skipped.
    Padding,
    Application(Vec<u8>),
    SeekTable(Vec<u8>),
    VorbisComment(Vec<u8>),
    CueSheet(Vec<u8>),
    Picture(Vec<u8>),
    /// A block type in 7..=126, which the format reserves.
    Reserved(u8),
    /// Block type 127.
    Invalid,
}

/// The STREAMINFO block: stream-wide properties.
#[derive(Debug, Clone, Copy, PartialEq, Eq, Structural)]
pub struct MetadataBlockStreamInfo {
    /// Samples per channel in the smallest block (16 bits).
    pub min_block_size: u16,
    /// Samples per channel in the largest block (16 bits).
    pub max_block_size: u16,
    /// Bytes in the smallest frame, 0 when unknown (24 bits).
    pub min_frame_size: u32,
    /// Bytes in the largest frame, 0 when unknown (24 bits).
    pub max_frame_size: u32,
    /// Hz (20 bits).
    pub sample_rate: u32,
    /// Stored as a 3-bit field plus one.
    pub num_channels: u8,
    /// Bits per sample, stored as a 5-bit field plus one.
    pub sample_depth: u8,
    /// Samples per channel in the stream, 0 when unknown (36 bits).
    pub num_samples: u64,
    /// MD5 of the decoded samples.
    pub decoded_checksum: u128,
}

/// The structured form of a SEEKTABLE payload.
#[derive(Debug, Clone)]
pub struct MetadataBlockSeekTable {
    pub seek_points: Vec<SeekPoint>,
}

#[derive(Debug, Clone)]
pub struct SeekPoint {
    pub sample_number: u64,
    pub frame_offset: u64,
    pub num_samples: u16,
}

/// The structured form of a CUESHEET payload.
#[derive(Debug, Clone)]
pub struct MetadataBlockCueSheet {
    pub catalog_number: Vec<u8>,
    pub num_lead_in_samples: u64,
    pub is_cd: bool,
    pub tracks: Vec<CueSheetTrack>,
}

#[derive(Debug, Clone)]
pub struct CueSheetTrack {
    pub track_offset: u64,
    pub track_num: u8,
    pub track_isrc: [u8; 12],
    pub track_type: bool,
    pub pre_emphasis: bool,
    pub indices: Vec<CueSheetTrackIndex>,
}

#[derive(Debug, Clone)]
pub struct CueSheetTrackIndex {
    pub offset: u64,
    pub index_point: u8,
}

/// The structured form of a PICTURE payload.
#[derive(Debug, Clone)]
pub struct MetadataBlockPicture {
    pub picture_type: PictureType,
    pub mime_type: Vec<u8>,
    pub description: Vec<u8>,
    pub width: u32,
    pub height: u32,
    pub depth: u32,
    pub num_colors_used: u32,
    pub picture: Vec<u8>,
}

/// Picture types, in the order of their codes 0..=20.
#[derive(Debug, Clone, Copy, PartialEq, Eq)]
pub enum PictureType {
    Other,
    FileIcon32,
    FileIcon,
    FrontCover,
    BackCover,
    Leaflet,
    Media,
    LeadArtist,
    Artist,
    Conductor,
    Band,
    Composer,
    Lyricist,
    RecordingLocation,
    DuringRecording,
    DuringPerformance,
    Movie,
    BrightlyColouredFish,
    Illustration,
    BandLogo,
    PublisherLogo,
    Reserved,
}

/// What a metadata block holds, with payloads as byte sequences.
pub enum MetadataContentModel {
    StreamInfo(MetadataBlockStreamInfo),
    Padding,
    Application(Seq<u8>),
    SeekTable(Seq<u8>),
    VorbisComment(Seq<u8>),
    CueSheet(Seq<u8>),
    Picture(Seq<u8>),
    Reserved(u8),
    Invalid,
}

pub struct MetadataBlockModel {
    pub is_last: bool,
    pub content: MetadataContentModel,
}

impl View for MetadataBlockData {
    type V = MetadataContentModel;

    open spec fn view(&self) -> MetadataContentModel {
        match self {
            MetadataBlockData::StreamInfo(si) => MetadataContentModel::StreamInfo(*si),
            MetadataBlockData::Padding => MetadataContentModel::Padding,
            MetadataBlockData::Application(b) => MetadataContentModel::Application(b@),
            MetadataBlockData::SeekTable(b) => MetadataContentModel::SeekTable(b@),
            MetadataBlockData::VorbisComment(b) => MetadataContentModel::VorbisComment(b@),
            MetadataBlockData::CueSheet(b) => MetadataContentModel::CueSheet(b@),
            MetadataBlockData::Picture(b) => MetadataContentModel::Picture(b@),
            MetadataBlockData::Reserved(t) => MetadataContentModel::Reserved(*t),
            MetadataBlockData::Invalid => MetadataContentModel::Invalid,
        }
    }
}

impl View for MetadataBlock {
    type V = MetadataBlockModel;

    open spec fn view(&self) -> MetadataBlockModel {
        MetadataBlockModel { is_last: self.is_last, content: self.content@ }
    }
}

/// A list of blocks, each by its view.
pub open spec fn blocks_view(blocks: Seq<MetadataBlock>) -> Seq<MetadataBlockModel> {
    blocks.map_values(|b: MetadataBlock| b@)
}

} // verus!
