//! Decoder for the FLAC container: a bit reader, the metadata block chain and
//! audio frames down to their Rice-coded residuals, each parser proved equal to
//! a declarative description of the format.

pub mod error;
pub mod bits;
pub mod bitstream;
pub mod rice;
pub mod metadata_types;
pub mod block_parser;
pub mod frame_types;
pub mod frame_parser;
