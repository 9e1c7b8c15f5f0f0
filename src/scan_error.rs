use crate::byte_section::ByteSection;
use crate::char_section::CharSection;
use crate::peek_seek::FalliblePeekSeek;
use vstd::prelude::*;

verus! {

/// Why an expected item could not be consumed.
#[derive(Debug, Clone, Copy, PartialEq, Eq)]
pub enum ScanError<T> {
    /// The input ended.
    EndOfInput,
    /// The item found, which was not the one wanted.
    Unexpected(T),
}

impl<'a> FalliblePeekSeek for ByteSection<'a> {
    type Error = ScanError<u8>;

    open spec fn eof_value(&self) -> ScanError<u8> {
        ScanError::EndOfInput
    }

    open spec fn unexpected_value(&self, c: u8) -> ScanError<u8> {
        ScanError::Unexpected(c)
    }

    fn eof_error(&self) -> (e: ScanError<u8>) {
        ScanError::EndOfInput
    }

    fn unexpected_error(&self, c: u8) -> (e: ScanError<u8>) {
        ScanError::Unexpected(c)
    }
}

impl<'a> FalliblePeekSeek for CharSection<'a> {
    type Error = ScanError<char>;

    open spec fn eof_value(&self) -> ScanError<char> {
        ScanError::EndOfInput
    }

    open spec fn unexpected_value(&self, c: char) -> ScanError<char> {
        ScanError::Unexpected(c)
    }

    fn eof_error(&self) -> (e: ScanError<char>) {
        ScanError::EndOfInput
    }

    fn unexpected_error(&self, c: char) -> (e: ScanError<char>) {
        ScanError::Unexpected(c)
    }
}

} // verus!
