//! Forward cursors over immutable sequences, for hand-written lexers and parsers.
mod byte_section;
mod char_section;
mod peek_seek;
mod scan_error;

pub use byte_section::{lemma_stop_is_unique, stops_at_target, ByteSection};
pub use char_section::{lemma_encode_utf8_concat, lemma_position_is_encoded_length, CharSection};
pub use peek_seek::{head_of, FalliblePeekSeek, PeekSeek};
pub use scan_error::ScanError;
