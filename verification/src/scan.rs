//! The section scan: which sections of an ELF image are to be rewritten, and
//! where in the file their bytes lie.

use crate::elf::{parse_elf, parsed, ElfImage, ImageView};
use crate::error::{Fault, ScanError};
use crate::targets::{
    any_prefix_of, find_outside, first_outside, lemma_none_outside_is_all_within, targets_within,
    Found, FullReplaceMap, FullReplacement, Patch, PrefixSet, Region, Targets,
};
use vstd::prelude::*;
use vstd::slice::slice_to_vec;

verus! {

/// The name that stands for a section whose name the string table does not
/// give: `<invalid utf-8>`.
pub open spec fn placeholder_name() -> Seq<u8> {
    seq![
        0x3cu8,
        0x69u8,
        0x6eu8,
        0x76u8,
        0x61u8,
        0x6cu8,
        0x69u8,
        0x64u8,
        0x20u8,
        0x75u8,
        0x74u8,
        0x66u8,
        0x2du8,
        0x38u8,
        0x3eu8,
    ]
}

/// The name of the section whose header gives `index`: what the string table
/// holds there, or the placeholder.
pub open spec fn section_name(names: Map<usize, Seq<u8>>, index: usize) -> Seq<u8> {
    if names.contains_key(index) {
        names[index]
    } else {
        placeholder_name()
    }
}

/// What one section contributes. A section whose name starts with a prefix
/// of the set is a region, from its file offset plus `base`, of its size. A
/// section whose name the map holds is replaced outright by the bytes under
/// that name, which have to be as many as the section's. A section that is
/// neither contributes nothing, wherever it lies.
pub open spec fn selected(
    name: Seq<u8>,
    offset: u64,
    size: u64,
    base: usize,
    prefixes: Seq<Seq<u8>>,
    replacements: Map<Seq<u8>, Seq<u8>>,
) -> Result<Targets, Fault> {
    let wanted = any_prefix_of(prefixes, name);
    let named = replacements.contains_key(name);
    if !wanted && !named {
        Ok(Targets::none())
    } else if offset + base > usize::MAX || size > usize::MAX {
        Err(Fault::SectionOutOfRange { section_offset: offset, section_size: size })
    } else if named && replacements[name].len() != size {
        Err(
            Fault::SizeMismatch {
                name,
                section_size: size,
                data_len: replacements[name].len() as usize,
            },
        )
    } else {
        let start = (offset + base) as usize;
        Ok(
            Targets {
                regions: if wanted {
                    seq![Region { offset: start, length: size as usize }]
                } else {
                    Seq::empty()
                },
                replacements: if named {
                    seq![Patch { name, offset: start, data: replacements[name] }]
                } else {
                    Seq::empty()
                },
            },
        )
    }
}

/// What the first `upto` sections of an image contribute, in their order;
/// the first section that cannot be taken decides the failure.
pub open spec fn selected_upto(
    image: ImageView,
    base: usize,
    prefixes: Seq<Seq<u8>>,
    replacements: Map<Seq<u8>, Seq<u8>>,
    upto: int,
) -> Result<Targets, Fault>
    decreases upto,
{
    if upto <= 0 {
        Ok(Targets::none())
    } else {
        match selected_upto(image, base, prefixes, replacements, upto - 1) {
            Err(fault) => Err(fault),
            Ok(before) => {
                let entry = image.sections[upto - 1];
                match selected(
                    section_name(image.names, entry.name_index),
                    entry.offset,
                    entry.size,
                    base,
                    prefixes,
                    replacements,
                ) {
                    Err(fault) => Err(fault),
                    Ok(more) => Ok(before.followed_by(more)),
                }
            },
        }
    }
}

/// What a whole image contributes: what its sections contribute, each range
/// of which has to lie inside the image, that is inside the bytes from
/// `base` to `base` plus the length of the image. The first range that does
/// not, regions before replacements, decides the failure.
pub open spec fn scanned(
    bytes: Seq<u8>,
    base: usize,
    prefixes: Seq<Seq<u8>>,
    replacements: Map<Seq<u8>, Seq<u8>>,
) -> Result<Targets, Fault> {
    match parsed(bytes) {
        Err(fault) => Err(fault),
        Ok(image) => match selected_upto(
            image,
            base,
            prefixes,
            replacements,
            image.sections.len() as int,
        ) {
            Err(fault) => Err(fault),
            Ok(targets) => match first_outside(targets, base as int, bytes.len() as int) {
                Some(range) => Err(
                    Fault::RangeOutOfBounds { start: range.offset, length: range.length },
                ),
                None => Ok(targets),
            },
        },
    }
}

/// The placeholder name as bytes.
pub fn placeholder() -> (name: [u8; 15])
    ensures
        name@ == placeholder_name(),
{
    let name: [u8; 15] = [
        0x3c,
        0x69,
        0x6e,
        0x76,
        0x61,
        0x6c,
        0x69,
        0x64,
        0x20,
        0x75,
        0x74,
        0x66,
        0x2d,
        0x38,
        0x3e,
    ];
    assert(name@ =~= placeholder_name());
    name
}

/// Decides what the section of the given name, file offset and size
/// contributes to a scan with base offset `base`.
pub fn select_section(
    name: &[u8],
    offset: u64,
    size: u64,
    base: usize,
    prefixes: &PrefixSet,
    replacements: &FullReplaceMap,
) -> (result: Result<Found, ScanError>)
    ensures
        match result {
            Ok(found) => selected(name@, offset, size, base, prefixes@, replacements@) == Ok::<
                Targets,
                Fault,
            >(found@),
            Err(e) => selected(name@, offset, size, base, prefixes@, replacements@) == Err::<
                Targets,
                Fault,
            >(e@),
        },
{
    let wanted = prefixes.matches(name);
    let data = replacements.get(name);
    let mut found = Found::new();
    if !wanted && data.is_none() {
        return Ok(found);
    }
    if offset > usize::MAX as u64 || size > usize::MAX as u64 {
        return Err(ScanError::SectionOutOfRange { section_offset: offset, section_size: size });
    }
    let start = match (offset as usize).checked_add(base) {
        Some(start) => start,
        None => {
            return Err(
                ScanError::SectionOutOfRange { section_offset: offset, section_size: size },
            );
        },
    };
    let length = size as usize;
    if wanted {
        found.regions.push(Region { offset: start, length });
    }
    if let Some(bytes) = data {
        if bytes.len() != length {
            return Err(
                ScanError::SizeMismatch {
                    name: slice_to_vec(name),
                    section_size: size,
                    data_len: bytes.len(),
                },
            );
        }
        found.replacements.push(
            FullReplacement {
                name: slice_to_vec(name),
                offset: start,
                data: slice_to_vec(bytes.as_slice()),
            },
        );
    }
    proof {
        let wanted_targets = selected(name@, offset, size, base, prefixes@, replacements@);
        assert(found@.regions =~= wanted_targets->Ok_0.regions);
        assert(found@.replacements =~= wanted_targets->Ok_0.replacements);
    }
    Ok(found)
}

/// Decides for each section of a parsed image what it contributes, and
/// gathers the contributions in the order of the section header table.
pub fn select_sections(
    image: &ElfImage,
    base: usize,
    prefixes: &PrefixSet,
    replacements: &FullReplaceMap,
) -> (result: Result<Found, ScanError>)
    ensures
        match result {
            Ok(found) => selected_upto(
                image@,
                base,
                prefixes@,
                replacements@,
                image@.sections.len() as int,
            ) == Ok::<Targets, Fault>(found@),
            Err(e) => selected_upto(
                image@,
                base,
                prefixes@,
                replacements@,
                image@.sections.len() as int,
            ) == Err::<Targets, Fault>(e@),
        },
{
    let mut found = Found::new();
    let fallback = placeholder();
    let mut i: usize = 0;
    while i < image.sections.len()
        invariant
            i <= image@.sections.len(),
            image@.sections == image.sections@,
            fallback@ == placeholder_name(),
            selected_upto(image@, base, prefixes@, replacements@, i as int) == Ok::<
                Targets,
                Fault,
            >(found@),
        decreases image@.sections.len() - i,
    {
        let entry = image.sections[i];
        let name: &[u8] = match image.name_at(entry.name_index) {
            Some(name) => name,
            None => &fallback,
        };
        assert(name@ == section_name(image@.names, entry.name_index));
        match select_section(name, entry.offset, entry.size, base, prefixes, replacements) {
            Ok(more) => {
                found.extend(more);
            },
            Err(e) => {
                proof {
                    lemma_fault_stays(
                        image@,
                        base,
                        prefixes@,
                        replacements@,
                        i + 1,
                        image@.sections.len() as int,
                    );
                }
                return Err(e);
            },
        }
        i += 1;
    }
    Ok(found)
}

/// Once a section has failed, the sections after it change nothing.
pub proof fn lemma_fault_stays(
    image: ImageView,
    base: usize,
    prefixes: Seq<Seq<u8>>,
    replacements: Map<Seq<u8>, Seq<u8>>,
    failed: int,
    upto: int,
)
    requires
        failed <= upto,
        selected_upto(image, base, prefixes, replacements, failed) is Err,
    ensures
        selected_upto(image, base, prefixes, replacements, upto) == selected_upto(
            image,
            base,
            prefixes,
            replacements,
            failed,
        ),
    decreases upto - failed,
{
    if failed < upto {
        lemma_fault_stays(image, base, prefixes, replacements, failed, upto - 1);
    }
}

/// Every range of `based` is the range of `plain` at the same place, moved
/// up by `base`; lengths, names and bytes are the same.
pub open spec fn moved_by(plain: Targets, based: Targets, base: usize) -> bool {
    &&& based.regions.len() == plain.regions.len()
    &&& based.replacements.len() == plain.replacements.len()
    &&& forall|i: int|
        0 <= i < plain.regions.len() ==> {
            &&& (#[trigger] based.regions[i]).offset == plain.regions[i].offset + base
            &&& based.regions[i].length == plain.regions[i].length
        }
    &&& forall|i: int|
        0 <= i < plain.replacements.len() ==> {
            &&& (#[trigger] based.replacements[i]).offset == plain.replacements[i].offset + base
            &&& based.replacements[i].name == plain.replacements[i].name
            &&& based.replacements[i].data == plain.replacements[i].data
        }
}

/// The base offset moves the ranges and does nothing else. Where the first
/// `upto` sections of an image can be taken both on their own and at base
/// offset `base`, the two scans find the same ranges in the same order, each
/// of the second at the offset of the first plus `base`.
pub proof fn lemma_base_moves_ranges(
    image: ImageView,
    base: usize,
    prefixes: Seq<Seq<u8>>,
    replacements: Map<Seq<u8>, Seq<u8>>,
    upto: int,
)
    requires
        selected_upto(image, 0, prefixes, replacements, upto) is Ok,
        selected_upto(image, base, prefixes, replacements, upto) is Ok,
    ensures
        moved_by(
            selected_upto(image, 0, prefixes, replacements, upto)->Ok_0,
            selected_upto(image, base, prefixes, replacements, upto)->Ok_0,
            base,
        ),
    decreases upto,
{
    if upto > 0 {
        lemma_base_moves_ranges(image, base, prefixes, replacements, upto - 1);
    }
}

/// An ELF member of an archive gives the ranges of its own layout, each at
/// the start of the member's data plus its offset inside the member. Where
/// the image `bytes` can be scanned both on its own and at base offset
/// `base`, the ranges of the second scan are those of the first, moved up by
/// `base`.
pub proof fn lemma_member_ranges_are_file_ranges(
    bytes: Seq<u8>,
    base: usize,
    prefixes: Seq<Seq<u8>>,
    replacements: Map<Seq<u8>, Seq<u8>>,
)
    requires
        scanned(bytes, 0, prefixes, replacements) is Ok,
        scanned(bytes, base, prefixes, replacements) is Ok,
    ensures
        moved_by(
            scanned(bytes, 0, prefixes, replacements)->Ok_0,
            scanned(bytes, base, prefixes, replacements)->Ok_0,
            base,
        ),
{
    let image = parsed(bytes)->Ok_0;
    lemma_base_moves_ranges(image, base, prefixes, replacements, image.sections.len() as int);
}

/// Every range that a scan gives lies inside the image: between `base` and
/// `base` plus the length of the image.
pub proof fn lemma_scanned_ranges_lie_inside(
    bytes: Seq<u8>,
    base: usize,
    prefixes: Seq<Seq<u8>>,
    replacements: Map<Seq<u8>, Seq<u8>>,
)
    requires
        scanned(bytes, base, prefixes, replacements) is Ok,
    ensures
        targets_within(
            scanned(bytes, base, prefixes, replacements)->Ok_0,
            base as int,
            bytes.len() as int,
        ),
{
    lemma_none_outside_is_all_within(
        scanned(bytes, base, prefixes, replacements)->Ok_0,
        base as int,
        bytes.len() as int,
    );
}

/// Finds in the ELF image `data` the sections that are to be rewritten: the
/// regions of the sections whose names start with a prefix of the set, and
/// the full replacements of the sections that the map names. `offset` is
/// where the image starts in the file, and is added to every range. A range
/// that reaches past the end of the image is refused.
pub fn get_elf_sections_to_replace_in(
    data: &[u8],
    replacements: &FullReplaceMap,
    offset: usize,
    prefixes: &PrefixSet,
) -> (result: Result<Found, ScanError>)
    ensures
        match result {
            Ok(found) => scanned(data@, offset, prefixes@, replacements@) == Ok::<Targets, Fault>(
                found@,
            ),
            Err(e) => scanned(data@, offset, prefixes@, replacements@) == Err::<Targets, Fault>(
                e@,
            ),
        },
{
    let found = match parse_elf(data) {
        Ok(image) => match select_sections(&image, offset, prefixes, replacements) {
            Ok(found) => found,
            Err(e) => {
                return Err(e);
            },
        },
        Err(e) => {
            return Err(e);
        },
    };
    match find_outside(&found, offset, data.len()) {
        Some(range) => Err(
            ScanError::RangeOutOfBounds { start: range.offset, length: range.length },
        ),
        None => Ok(found),
    }
}

} // verus!
