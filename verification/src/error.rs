//! The ways in which finding the ranges to rewrite can fail. Each is final:
//! nothing is retried and nothing is salvaged.

use vstd::prelude::*;

verus! {

#[verifier::external_type_specification]
#[verifier::external_body]
pub struct ExElfError(goblin::error::Error);

/// Why no list of ranges could be made for a file.
#[derive(Debug)]
pub enum ScanError {
    /// The ELF header, the section header table or the section-name string
    /// table could not be parsed; the parser's own error says why.
    MalformedElf(goblin::error::Error),
    /// The header names a section-name string table that the section header
    /// table does not have.
    NameTableIndexOutOfBounds,
    /// A section that is to be rewritten lies at an offset, or has a size,
    /// that no byte range of this machine can express.
    SectionOutOfRange { section_offset: u64, section_size: u64 },
    /// The bytes given for a section are not as many as the section holds.
    SizeMismatch { name: Vec<u8>, section_size: u64, data_len: usize },
    /// The archive ends inside a member header.
    TruncatedHeader { at: usize },
    /// A member header does not end with its two terminator bytes.
    CorruptHeader { at: usize },
    /// The size field of a member header is not a decimal number.
    BadSizeField { at: usize },
    /// A member header declares more bytes than the archive has left.
    MemberOutOfBounds { at: usize, declared: usize },
    /// No section of the file has a name under which bytes were given.
    SectionNotFound { name: Vec<u8> },
    /// A section that is to be rewritten reaches past the end of its image.
    RangeOutOfBounds { start: usize, length: usize },
    /// Sections are to be replaced, but the archive holds no ELF member.
    NoElfInArchive,
    /// Sections are to be replaced, but the file is neither an ELF image nor
    /// an archive.
    UnknownFileType,
}

/// A failure as contracts speak of it: the kind and what it names, without
/// the parser's own error.
pub enum Fault {
    MalformedElf,
    NameTableIndexOutOfBounds,
    SectionOutOfRange { section_offset: u64, section_size: u64 },
    SizeMismatch { name: Seq<u8>, section_size: u64, data_len: usize },
    TruncatedHeader { at: usize },
    CorruptHeader { at: usize },
    BadSizeField { at: usize },
    MemberOutOfBounds { at: usize, declared: usize },
    SectionNotFound { name: Seq<u8> },
    RangeOutOfBounds { start: usize, length: usize },
    NoElfInArchive,
    UnknownFileType,
}

impl View for ScanError {
    type V = Fault;

    open spec fn view(&self) -> Fault {
        match self {
            ScanError::MalformedElf(_) => Fault::MalformedElf,
            ScanError::NameTableIndexOutOfBounds => Fault::NameTableIndexOutOfBounds,
            ScanError::SectionOutOfRange {
                section_offset,
                section_size,
            } => Fault::SectionOutOfRange {
                section_offset: *section_offset,
                section_size: *section_size,
            },
            ScanError::SizeMismatch { name, section_size, data_len } => Fault::SizeMismatch {
                name: name@,
                section_size: *section_size,
                data_len: *data_len,
            },
            ScanError::TruncatedHeader { at } => Fault::TruncatedHeader { at: *at },
            ScanError::CorruptHeader { at } => Fault::CorruptHeader { at: *at },
            ScanError::BadSizeField { at } => Fault::BadSizeField { at: *at },
            ScanError::MemberOutOfBounds { at, declared } => Fault::MemberOutOfBounds {
                at: *at,
                declared: *declared,
            },
            ScanError::SectionNotFound { name } => Fault::SectionNotFound { name: name@ },
            ScanError::RangeOutOfBounds { start, length } => Fault::RangeOutOfBounds {
                start: *start,
                length: *length,
            },
            ScanError::NoElfInArchive => Fault::NoElfInArchive,
            ScanError::UnknownFileType => Fault::UnknownFileType,
        }
    }
}

} // verus!
