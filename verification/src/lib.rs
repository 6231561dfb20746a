//! Verified LDAC Bluetooth audio decoder core.
//!
//! The integer half of the decoder lives here: bitstream reading, frame
//! header and raw-data-frame parsing, bit-allocation reconstruction,
//! decoder state, the per-frame decoding decisions, the handle behind the
//! C-style interface and PCM interleaving.  Inverse quantisation, the
//! inverse MDCT and sample conversion work on floating-point values and are
//! left to the caller.

pub mod consts;
pub mod error;
pub mod bitreader;
pub mod tables;
pub mod sfinfo;
pub mod bitalloc;
pub mod unpack;
pub mod setpcm;
pub mod decoder;
pub mod handle;
pub mod wav;

pub use error::{LdacError, LdacResult};
pub use setpcm::SampleFormat;
pub use tables::{CodecTables, HuffDec};
pub use decoder::{ChannelMode, LdacDecoder, interleave_pcm};
