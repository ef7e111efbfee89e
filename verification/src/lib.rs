//! Axiom-based compression of files and folders.
//!
//! Data go through a delta filter, the patterns in them become axioms, and the data
//! a sequence of axioms, in which frequent pairs become axioms of their own. See
//! [`container`] and [`archive`] for the formats.

pub mod archive;
pub mod archive_laws;
pub mod browser;
pub mod bytes;
pub mod collate;
pub mod compound;
pub mod container;
pub mod dfa;
pub mod digest;
pub mod encode;
pub mod error;
pub mod filter;
pub mod inner;
pub mod library;
pub mod novelty;
pub mod options;
pub mod order;
pub mod patterns;
pub mod progress;
pub mod prune;
pub mod quantize;
pub mod score;
pub mod stream;
pub mod stride;
pub mod tally;
pub mod text;
pub mod varint;

pub use crate::archive::ArchiveEntry;
pub use crate::archive::ArchiveFileInfo;
pub use crate::archive::ArchiveStats;
pub use crate::archive::compress_archive;
pub use crate::archive::decompress_archive;
pub use crate::archive::is_axmzip_archive;
pub use crate::archive::list_archive;
pub use crate::archive::probe_archive;
pub use crate::container::CompressStats;
pub use crate::container::DecompressResult;
pub use crate::container::Measurements;
pub use crate::container::compress;
pub use crate::container::decompress;
pub use crate::container::is_axmzip;
pub use crate::container::probe;
pub use crate::error::AxmzipError;
pub use crate::quantize::max_error;
pub use crate::quantize::quality_to_step;
pub use crate::score::Score;
