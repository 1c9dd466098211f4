//! The minimal ELF reader: the header, the section header table and the
//! section-name string table, and nothing else of the image. Symbol tables,
//! relocations and program headers are never looked at.

use crate::error::{Fault, ScanError};
use goblin::container::{Container, Ctx};
use goblin::elf::{Elf, SectionHeader};
use goblin::strtab::Strtab;
use scroll::Endian;
use vstd::prelude::*;

verus! {

/// The header's string-table index when the real index is kept in the first
/// section header's link field.
pub const SHN_XINDEX: u16 = 0xffff;

/// The type of a section that occupies no bytes of the file.
pub const SHT_NOBITS: u32 = 8;

/// What the scan reads of an ELF header.
#[derive(Clone, Copy, Debug, PartialEq, Eq, Structural)]
pub struct Layout {
    /// File offset of the section header table.
    pub section_table_offset: u64,
    /// Number of entries that the header gives for the table.
    pub section_count: u16,
    /// Index of the section that holds the section names.
    pub name_table_index: u16,
    /// Whether the image is of the 64-bit class.
    pub is_64: bool,
    /// Whether the image is little-endian.
    pub little_endian: bool,
}

/// What the scan reads of one section header.
#[derive(Clone, Copy, Debug, PartialEq, Eq, Structural)]
pub struct SectionEntry {
    /// Index of the section's name in the section-name string table.
    pub name_index: usize,
    /// Section type.
    pub kind: u32,
    /// Address of the section in memory.
    pub address: u64,
    /// File offset of the section's bytes.
    pub offset: u64,
    /// Number of the section's bytes.
    pub size: u64,
    /// Index of an associated section.
    pub link: u32,
}

#[verifier::external_type_specification]
#[verifier::external_body]
pub struct ExStrtab<'a>(Strtab<'a>);

/// What `Elf::parse_header`, followed by `Elf::lazy_parse`, makes of an
/// image: the fields above, or nothing where they refuse it.
pub uninterp spec fn header_layout(bytes: Seq<u8>) -> Option<Layout>;

/// What `SectionHeader::parse` reads at `offset`: the entries of the section
/// header table, or nothing where it refuses.
pub uninterp spec fn section_table(
    bytes: Seq<u8>,
    offset: usize,
    count: usize,
    is_64: bool,
    little_endian: bool,
) -> Option<Seq<SectionEntry>>;

/// What `Strtab::parse` makes of the `size` bytes at `offset`, with the zero
/// byte as delimiter: for each index that has a name, that name; or nothing
/// where it refuses.
pub uninterp spec fn name_table(bytes: Seq<u8>, offset: usize, size: usize) -> Option<
    Map<usize, Seq<u8>>,
>;

/// The names that a parsed string table holds, by index.
pub uninterp spec fn strtab_names(table: &Strtab) -> Map<usize, Seq<u8>>;

/// Calls `Elf::parse_header` and `Elf::lazy_parse`. Trusted: whether they
/// accept the image, and the fields they give, depend on the bytes alone.
#[verifier::external_body]
fn read_layout(bytes: &[u8]) -> (read: Result<Layout, goblin::error::Error>)
    ensures
        read is Ok <==> header_layout(bytes@) is Some,
        read is Ok ==> Some(read->Ok_0) == header_layout(bytes@),
{
    let header = Elf::parse_header(bytes)?;
    let elf = Elf::lazy_parse(header)?;
    Ok(
        Layout {
            section_table_offset: header.e_shoff,
            section_count: header.e_shnum,
            name_table_index: header.e_shstrndx,
            is_64: elf.is_64,
            little_endian: elf.little_endian,
        },
    )
}

/// Calls `SectionHeader::parse` with the context that `Ctx::new` makes of the
/// class and the byte order. Trusted: whether it accepts, and the entries it
/// gives, depend on the arguments alone.
#[verifier::external_body]
fn read_section_table(
    bytes: &[u8],
    offset: usize,
    count: usize,
    is_64: bool,
    little_endian: bool,
) -> (read: Result<Vec<SectionEntry>, goblin::error::Error>)
    ensures
        read is Ok <==> section_table(bytes@, offset, count, is_64, little_endian) is Some,
        read is Ok ==> Some(read->Ok_0@) == section_table(
            bytes@,
            offset,
            count,
            is_64,
            little_endian,
        ),
{
    let container = if is_64 { Container::Big } else { Container::Little };
    let ctx = Ctx::new(container, Endian::from(little_endian));
    let headers = SectionHeader::parse(bytes, offset, count, ctx)?;
    let entry = |h: &SectionHeader| SectionEntry {
        name_index: h.sh_name,
        kind: h.sh_type,
        address: h.sh_addr,
        offset: h.sh_offset,
        size: h.sh_size,
        link: h.sh_link,
    };
    Ok(headers.iter().map(entry).collect())
}

/// The bytes of a section lie inside a file of `file_len` bytes, and neither
/// their end in the file nor their end in memory leaves the 64-bit range. A
/// section without bytes in the file, or without bytes at all, always fits.
pub open spec fn section_fits(entry: SectionEntry, file_len: usize) -> bool {
    ||| entry.kind == SHT_NOBITS
    ||| entry.size == 0
    ||| {
        &&& entry.offset + entry.size <= u64::MAX
        &&& entry.offset + entry.size <= file_len
        &&& entry.address + entry.size <= u64::MAX
    }
}

/// Calls `SectionHeader::check_size` on a header with the entry's fields.
/// Trusted: it accepts exactly the sections that fit.
#[verifier::external_body]
fn check_section_size(entry: &SectionEntry, file_len: usize) -> (checked: Result<
    (),
    goblin::error::Error,
>)
    ensures
        checked is Ok <==> section_fits(*entry, file_len),
{
    let header = SectionHeader {
        sh_name: entry.name_index,
        sh_type: entry.kind,
        sh_addr: entry.address,
        sh_offset: entry.offset,
        sh_size: entry.size,
        sh_link: entry.link,
        ..Default::default()
    };
    header.check_size(file_len)
}

/// Calls `Strtab::parse` with the zero byte as delimiter. Trusted: whether it
/// accepts, and the names in the table it gives, depend on the arguments
/// alone.
#[verifier::external_body]
fn read_name_table<'a>(bytes: &'a [u8], offset: usize, size: usize) -> (read: Result<
    Strtab<'a>,
    goblin::error::Error,
>)
    ensures
        read is Ok <==> name_table(bytes@, offset, size) is Some,
        read is Ok ==> Some(strtab_names(&read->Ok_0)) == name_table(bytes@, offset, size),
{
    Strtab::parse(bytes, offset, size, 0x0)
}

/// Calls `Strtab::get_at`. Trusted: it gives the name that the table holds
/// under `index`, as bytes, and nothing where the table holds none there.
#[verifier::external_body]
fn name_at<'a>(table: &Strtab<'a>, index: usize) -> (name: Option<&'a [u8]>)
    ensures
        match name {
            Some(bytes) => strtab_names(table).contains_key(index) && strtab_names(table)[index]
                == bytes@,
            None => !strtab_names(table).contains_key(index),
        },
{
    table.get_at(index).map(str::as_bytes)
}

/// Where the section names are to be found.
#[derive(Clone, Copy, Debug, PartialEq, Eq, Structural)]
pub enum NameTableSlot {
    /// The image has no section at all, and so no names.
    Absent,
    /// The index that the image gives names no section of its table.
    OutOfBounds,
    /// The names are the contents of the section with this index.
    Section(usize),
}

/// The slot that the header's string-table index stands for. The reserved
/// index `SHN_XINDEX` says that the real one did not fit into the header and
/// is kept in the link field of the first section header.
pub open spec fn name_table_slot(sections: Seq<SectionEntry>, index: u16) -> NameTableSlot {
    if index == SHN_XINDEX && sections.len() == 0 {
        NameTableSlot::Absent
    } else {
        let resolved: int = if index == SHN_XINDEX {
            sections[0].link as int
        } else {
            index as int
        };
        if resolved >= sections.len() {
            NameTableSlot::OutOfBounds
        } else {
            NameTableSlot::Section(resolved as usize)
        }
    }
}

/// Finds the section that holds the section names.
pub fn locate_name_table(sections: &Vec<SectionEntry>, index: u16) -> (slot: NameTableSlot)
    ensures
        slot == name_table_slot(sections@, index),
{
    let mut resolved: usize = index as usize;
    if index == SHN_XINDEX {
        if sections.len() == 0 {
            return NameTableSlot::Absent;
        }
        resolved = sections[0].link as usize;
    }
    if resolved >= sections.len() {
        NameTableSlot::OutOfBounds
    } else {
        NameTableSlot::Section(resolved)
    }
}

/// The section headers of an image and the names that its string table
/// holds, by index.
pub struct ImageView {
    pub sections: Seq<SectionEntry>,
    pub names: Map<usize, Seq<u8>>,
}

/// The outcome of parsing `bytes`: the header first, then the section header
/// table where the header puts it, then the string table in the section that
/// the header names, which has to fit into the image.
pub open spec fn parsed(bytes: Seq<u8>) -> Result<ImageView, Fault> {
    match header_layout(bytes) {
        None => Err(Fault::MalformedElf),
        Some(layout) => match section_table(
            bytes,
            layout.section_table_offset as usize,
            layout.section_count as usize,
            layout.is_64,
            layout.little_endian,
        ) {
            None => Err(Fault::MalformedElf),
            Some(sections) => match name_table_slot(sections, layout.name_table_index) {
                NameTableSlot::Absent => Ok(ImageView { sections, names: Map::empty() }),
                NameTableSlot::OutOfBounds => Err(Fault::NameTableIndexOutOfBounds),
                NameTableSlot::Section(i) => {
                    let holder = sections[i as int];
                    if !section_fits(holder, bytes.len() as usize) {
                        Err(Fault::MalformedElf)
                    } else {
                        match name_table(bytes, holder.offset as usize, holder.size as usize) {
                            None => Err(Fault::MalformedElf),
                            Some(names) => Ok(ImageView { sections, names }),
                        }
                    }
                },
            },
        },
    }
}

/// The section headers of an image and its section-name string table.
pub struct ElfImage<'a> {
    /// The entries of the section header table, in file order.
    pub sections: Vec<SectionEntry>,
    /// The parsed string table; none where the image has no section.
    pub names: Option<Strtab<'a>>,
}

impl<'a> View for ElfImage<'a> {
    type V = ImageView;

    open spec fn view(&self) -> ImageView {
        ImageView {
            sections: self.sections@,
            names: match self.names {
                Some(table) => strtab_names(&table),
                None => Map::empty(),
            },
        }
    }
}

impl<'a> ElfImage<'a> {
    /// The name that stands in the string table at `index`, if any does.
    pub fn name_at(&self, index: usize) -> (name: Option<&'a [u8]>)
        ensures
            match name {
                Some(bytes) => self@.names.contains_key(index) && self@.names[index] == bytes@,
                None => !self@.names.contains_key(index),
            },
    {
        match &self.names {
            Some(table) => name_at(table, index),
            None => None,
        }
    }
}

/// Parses the ELF header of `bytes`, its section header table and its
/// section-name string table. Nothing else of the image is read.
pub fn parse_elf<'a>(bytes: &'a [u8]) -> (result: Result<ElfImage<'a>, ScanError>)
    ensures
        match result {
            Ok(image) => parsed(bytes@) == Ok::<ImageView, Fault>(image@),
            Err(e) => parsed(bytes@) == Err::<ImageView, Fault>(e@),
        },
{
    let layout = match read_layout(bytes) {
        Ok(layout) => layout,
        Err(e) => {
            return Err(ScanError::MalformedElf(e));
        },
    };
    let sections = match read_section_table(
        bytes,
        #[verifier::truncate]
        (layout.section_table_offset as usize),
        layout.section_count as usize,
        layout.is_64,
        layout.little_endian,
    ) {
        Ok(sections) => sections,
        Err(e) => {
            return Err(ScanError::MalformedElf(e));
        },
    };
    match locate_name_table(&sections, layout.name_table_index) {
        NameTableSlot::Absent => Ok(ElfImage { sections, names: None }),
        NameTableSlot::OutOfBounds => Err(ScanError::NameTableIndexOutOfBounds),
        NameTableSlot::Section(i) => {
            let holder = sections[i];
            if let Err(e) = check_section_size(&holder, bytes.len()) {
                return Err(ScanError::MalformedElf(e));
            }
            match read_name_table(
                bytes,
                #[verifier::truncate]
                (holder.offset as usize),
                #[verifier::truncate]
                (holder.size as usize),
            ) {
                Ok(table) => Ok(ElfImage { sections, names: Some(table) }),
                Err(e) => Err(ScanError::MalformedElf(e)),
            }
        },
    }
}

} // verus!
