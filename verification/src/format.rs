//! Classification of a byte buffer by its leading magic bytes.

use vstd::prelude::*;

verus! {

/// What kind of file a buffer holds, as far as its first bytes tell.
#[derive(Clone, Copy, Debug, PartialEq, Eq, Structural)]
pub enum FileType {
    ELF,
    AR,
    UNKNOWN,
}

/// The four bytes every ELF image starts with: `0x7f 'E' 'L' 'F'`.
pub open spec fn elf_magic() -> Seq<u8> {
    seq![0x7fu8, 0x45u8, 0x4cu8, 0x46u8]
}

/// The eight bytes every `ar` archive starts with: `"!<arch>\n"`.
pub open spec fn ar_magic() -> Seq<u8> {
    seq![0x21u8, 0x3cu8, 0x61u8, 0x72u8, 0x63u8, 0x68u8, 0x3eu8, 0x0au8]
}

/// `s` begins with all of `prefix`.
pub open spec fn has_prefix(s: Seq<u8>, prefix: Seq<u8>) -> bool {
    prefix.len() <= s.len() && s.subrange(0, prefix.len() as int) == prefix
}

/// `s` ends with all of `suffix`.
pub open spec fn has_suffix(s: Seq<u8>, suffix: Seq<u8>) -> bool {
    suffix.len() <= s.len() && s.subrange(s.len() - suffix.len(), s.len() as int) == suffix
}

/// The number of bytes that a buffer has to hold to be classified at all:
/// the length of the longer magic.
pub const MAGIC_WINDOW: usize = 8;

/// The classification of `data`. A buffer shorter than 8 bytes is unknown,
/// whatever it holds; of a longer one the ELF magic is looked for first,
/// then the archive magic.
pub open spec fn file_type_of(data: Seq<u8>) -> FileType {
    if data.len() < MAGIC_WINDOW {
        FileType::UNKNOWN
    } else if has_prefix(data, elf_magic()) {
        FileType::ELF
    } else if has_prefix(data, ar_magic()) {
        FileType::AR
    } else {
        FileType::UNKNOWN
    }
}

/// Tells whether `data` starts with `prefix`.
pub fn starts_with(data: &[u8], prefix: &[u8]) -> (found: bool)
    ensures
        found == has_prefix(data@, prefix@),
{
    if data.len() < prefix.len() {
        return false;
    }
    let mut i: usize = 0;
    while i < prefix.len()
        invariant
            i <= prefix.len() <= data.len(),
            data@.subrange(0, i as int) == prefix@.subrange(0, i as int),
        decreases prefix.len() - i,
    {
        if data[i] != prefix[i] {
            assert(data@.subrange(0, prefix@.len() as int)[i as int] != prefix@[i as int]);
            return false;
        }
        assert(data@.subrange(0, i + 1) =~= data@.subrange(0, i as int).push(data@[i as int]));
        assert(prefix@.subrange(0, i + 1) =~= prefix@.subrange(0, i as int).push(prefix@[i as int]));
        i += 1;
    }
    assert(prefix@.subrange(0, i as int) =~= prefix@);
    true
}

/// Tells whether `data` ends with `suffix`.
pub fn ends_with(data: &[u8], suffix: &[u8]) -> (found: bool)
    ensures
        found == has_suffix(data@, suffix@),
{
    if data.len() < suffix.len() {
        return false;
    }
    let total = data.len();
    let from = total - suffix.len();
    let mut i: usize = 0;
    while i < suffix.len()
        invariant
            total == data@.len(),
            from == data@.len() - suffix@.len(),
            i <= suffix@.len() <= data@.len(),
            forall|k: int| 0 <= k < i ==> data@[from + k] == suffix@[k],
        decreases suffix@.len() - i,
    {
        if data[from + i] != suffix[i] {
            assert(data@.subrange(from as int, data@.len() as int)[i as int] != suffix@[i as int]);
            return false;
        }
        i += 1;
    }
    assert(data@.subrange(from as int, data@.len() as int) =~= suffix@);
    true
}

/// Classifies a buffer as an ELF image, an `ar` archive or neither, by its
/// magic bytes alone. A buffer shorter than 8 bytes is `UNKNOWN`.
pub fn detect_mapped_file_type(data: &[u8]) -> (kind: FileType)
    ensures
        kind == file_type_of(data@),
{
    let elf: [u8; 4] = [0x7f, 0x45, 0x4c, 0x46];
    let ar: [u8; 8] = [0x21, 0x3c, 0x61, 0x72, 0x63, 0x68, 0x3e, 0x0a];
    assert(elf@ =~= elf_magic());
    assert(ar@ =~= ar_magic());
    if data.len() < MAGIC_WINDOW {
        FileType::UNKNOWN
    } else if starts_with(data, &elf) {
        FileType::ELF
    } else if starts_with(data, &ar) {
        FileType::AR
    } else {
        FileType::UNKNOWN
    }
}

} // verus!
