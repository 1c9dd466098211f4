//! The run over one file: finding every range to rewrite, and rewriting
//! them in place. The file never changes its length.

use crate::archive::{
    get_elf_sections_to_replace_in_from_ar, lemma_walked_ranges_lie_inside, walked, AR_MAGIC_LEN,
};
use crate::error::{Fault, ScanError};
use crate::format::{detect_mapped_file_type, file_type_of, FileType};
use crate::pattern::PatternPair;
use crate::replace::{
    chunk_size_for, engine_hit, engine_output, overwrite, overwritten, par_replace_bytes,
};
use crate::scan::{get_elf_sections_to_replace_in, lemma_scanned_ranges_lie_inside, scanned};
use crate::targets::{
    find_outside, lemma_none_outside_is_all_within, patch_within, region_within, same_bytes,
    targets_within, Found, FullReplaceMap, Patch, PrefixSet, Region, Targets,
};
use vstd::prelude::*;
use vstd::slice::slice_to_vec;

verus! {

/// The minimum chunk size of a run: one mebibyte.
pub const MIN_CHUNK_SIZE: usize = 1024 * 1024;

/// The whole file as one region.
pub open spec fn whole_file(len: usize) -> Targets {
    Targets { regions: seq![Region { offset: 0, length: len }], replacements: Seq::empty() }
}

/// No bytes were given for any section.
pub open spec fn nothing_requested(replacements: Map<Seq<u8>, Seq<u8>>) -> bool {
    replacements == Map::<Seq<u8>, Seq<u8>>::empty()
}

/// The ranges that the structure of the file gives. An ELF image is scanned
/// from offset 0, an archive is walked. A file that is neither, and an
/// archive without any ELF member, is one opaque region from end to end,
/// unless bytes were given for a section: then there is nothing to put them
/// into.
pub open spec fn discovered(
    data: Seq<u8>,
    prefixes: Seq<Seq<u8>>,
    replacements: Map<Seq<u8>, Seq<u8>>,
) -> Result<Targets, Fault> {
    match file_type_of(data) {
        FileType::ELF => scanned(data, 0, prefixes, replacements),
        FileType::AR => match walked(data, AR_MAGIC_LEN as int, prefixes, replacements) {
            Err(fault) => Err(fault),
            Ok(walk) => if walk.elf_members > 0 {
                Ok(walk.targets)
            } else if nothing_requested(replacements) {
                Ok(whole_file(data.len() as usize))
            } else {
                Err(Fault::NoElfInArchive)
            },
        },
        FileType::UNKNOWN => if nothing_requested(replacements) {
            Ok(whole_file(data.len() as usize))
        } else {
            Err(Fault::UnknownFileType)
        },
    }
}

/// Bytes were given under `name`, and no section of that name was found.
pub open spec fn is_missing(
    replacements: Map<Seq<u8>, Seq<u8>>,
    targets: Targets,
    name: Seq<u8>,
) -> bool {
    &&& replacements.contains_key(name)
    &&& forall|i: int|
        0 <= i < targets.replacements.len() ==> (#[trigger] targets.replacements[i]).name != name
}

/// Looks for a name under which bytes were given and no section was found.
fn find_missing(replacements: &FullReplaceMap, found: &Found) -> (missing: Option<Vec<u8>>)
    ensures
        match missing {
            Some(name) => is_missing(replacements@, found@, name@),
            None => forall|name: Seq<u8>| !is_missing(replacements@, found@, name),
        },
{
    proof {
        replacements.lemma_names();
    }
    let mut i: usize = 0;
    while i < replacements.count()
        invariant
            i <= replacements.names().len(),
            forall|name: Seq<u8>|
                replacements@.contains_key(name) <==> replacements.names().contains(name),
            forall|k: int|
                0 <= k < i ==> !is_missing(replacements@, found@, #[trigger] replacements.names()[k]),
        decreases replacements.names().len() - i,
    {
        let name = replacements.name(i);
        assert(replacements.names().contains(name@));
        let mut j: usize = 0;
        let mut satisfied = false;
        while j < found.replacements.len() && !satisfied
            invariant
                j <= found.replacements@.len(),
                found@.replacements.len() == found.replacements@.len(),
                satisfied ==> exists|k: int|
                    0 <= k < found@.replacements.len() && (#[trigger] found@.replacements[k]).name
                        == name@,
                !satisfied ==> forall|k: int|
                    0 <= k < j ==> (#[trigger] found@.replacements[k]).name != name@,
            decreases found.replacements@.len() - j + (if satisfied { 0int } else { 1int }),
        {
            if same_bytes(found.replacements[j].name.as_slice(), name) {
                assert(found@.replacements[j as int].name == name@);
                satisfied = true;
            } else {
                j += 1;
            }
        }
        if !satisfied {
            return Some(slice_to_vec(name));
        }
        i += 1;
    }
    assert forall|name: Seq<u8>| !is_missing(replacements@, found@, name) by {
        if replacements@.contains_key(name) {
            assert(replacements.names().contains(name));
            let k = choose|k: int|
                0 <= k < replacements.names().len() && replacements.names()[k] == name;
            assert(!is_missing(replacements@, found@, replacements.names()[k]));
        }
    }
    None
}

/// Finds every range of the file `data` that a run is to rewrite. The
/// structure of the file gives the ranges, as `discovered` says. Then every
/// name under which bytes were given has to have met a section. Every range
/// that is found lies inside the file.
pub fn discover(data: &[u8], prefixes: &PrefixSet, replacements: &FullReplaceMap) -> (result:
    Result<Found, ScanError>)
    ensures
        match discovered(data@, prefixes@, replacements@) {
            Err(fault) => result matches Err(e) && e@ == fault,
            Ok(targets) => if exists|name: Seq<u8>| is_missing(replacements@, targets, name) {
                result matches Err(e) && (e@ matches Fault::SectionNotFound { name } && is_missing(
                    replacements@,
                    targets,
                    name,
                ))
            } else {
                result matches Ok(found) && found@ == targets && targets_within(
                    targets,
                    0,
                    data@.len() as int,
                )
            },
        },
{
    let len = data.len();
    let found = match detect_mapped_file_type(data) {
        FileType::ELF => match get_elf_sections_to_replace_in(data, replacements, 0, prefixes) {
            Ok(found) => found,
            Err(e) => {
                return Err(e);
            },
        },
        FileType::AR => match get_elf_sections_to_replace_in_from_ar(data, replacements, prefixes) {
            Ok(scan) => if scan.elf_members > 0 {
                scan.found
            } else if replacements.is_empty() {
                whole(len)
            } else {
                return Err(ScanError::NoElfInArchive);
            },
            Err(e) => {
                return Err(e);
            },
        },
        FileType::UNKNOWN => if replacements.is_empty() {
            whole(len)
        } else {
            return Err(ScanError::UnknownFileType);
        },
    };
    assert(discovered(data@, prefixes@, replacements@) == Ok::<Targets, Fault>(found@));
    if let Some(name) = find_missing(replacements, &found) {
        assert(is_missing(replacements@, found@, name@));
        return Err(ScanError::SectionNotFound { name });
    }
    proof {
        lemma_discovered_ranges_lie_inside(data@, prefixes@, replacements@);
    }
    Ok(found)
}

/// Every range that the structure of a file gives lies inside the file.
pub proof fn lemma_discovered_ranges_lie_inside(
    data: Seq<u8>,
    prefixes: Seq<Seq<u8>>,
    replacements: Map<Seq<u8>, Seq<u8>>,
)
    requires
        data.len() <= usize::MAX,
        discovered(data, prefixes, replacements) is Ok,
    ensures
        targets_within(discovered(data, prefixes, replacements)->Ok_0, 0, data.len() as int),
{
    match file_type_of(data) {
        FileType::ELF => {
            lemma_scanned_ranges_lie_inside(data, 0, prefixes, replacements);
        },
        FileType::AR => {
            lemma_walked_ranges_lie_inside(data, AR_MAGIC_LEN as int, prefixes, replacements);
        },
        FileType::UNKNOWN => {},
    }
}

/// The whole of a file of `len` bytes as the one region to work on.
fn whole(len: usize) -> (found: Found)
    ensures
        found@ == whole_file(len),
{
    let mut found = Found::new();
    found.regions.push(Region { offset: 0, length: len });
    assert(found@.regions =~= whole_file(len).regions);
    assert(found@.replacements =~= whole_file(len).replacements);
    found
}

/// `data` after the engine has run over the region, with the bytes around
/// the region as they were.
pub open spec fn region_rewritten(
    data: Seq<u8>,
    region: Region,
    src: Seq<u8>,
    dst: Seq<u8>,
    min_chunk_size: usize,
) -> Seq<u8> {
    let from = region.offset as int;
    let to = from + region.length;
    data.subrange(0, from) + engine_output(
        data.subrange(from, to),
        src,
        dst,
        chunk_size_for(src.len() as int, min_chunk_size as int),
    ) + data.subrange(to, data.len() as int)
}

/// The engine replaces something in the region.
pub open spec fn region_hit(
    data: Seq<u8>,
    region: Region,
    src: Seq<u8>,
    dst: Seq<u8>,
    min_chunk_size: usize,
) -> bool {
    engine_hit(
        data.subrange(region.offset as int, region.offset + region.length),
        src,
        dst,
        chunk_size_for(src.len() as int, min_chunk_size as int),
    )
}

/// `data` after the engine has run over the first `upto` regions, one after
/// the other.
pub open spec fn regions_rewritten(
    data: Seq<u8>,
    regions: Seq<Region>,
    src: Seq<u8>,
    dst: Seq<u8>,
    min_chunk_size: usize,
    upto: int,
) -> Seq<u8>
    decreases upto,
{
    if upto <= 0 {
        data
    } else {
        region_rewritten(
            regions_rewritten(data, regions, src, dst, min_chunk_size, upto - 1),
            regions[upto - 1],
            src,
            dst,
            min_chunk_size,
        )
    }
}

/// Those of the first `upto` regions in which the engine replaced something
/// when their turn came, in their order.
pub open spec fn regions_touched(
    data: Seq<u8>,
    regions: Seq<Region>,
    src: Seq<u8>,
    dst: Seq<u8>,
    min_chunk_size: usize,
    upto: int,
) -> Seq<Region>
    decreases upto,
{
    if upto <= 0 {
        Seq::empty()
    } else {
        let before = regions_touched(data, regions, src, dst, min_chunk_size, upto - 1);
        if region_hit(
            regions_rewritten(data, regions, src, dst, min_chunk_size, upto - 1),
            regions[upto - 1],
            src,
            dst,
            min_chunk_size,
        ) {
            before.push(regions[upto - 1])
        } else {
            before
        }
    }
}

/// `data` after the first `upto` replacements have been written, one after
/// the other.
pub open spec fn patches_written(data: Seq<u8>, patches: Seq<Patch>, upto: int) -> Seq<u8>
    decreases upto,
{
    if upto <= 0 {
        data
    } else {
        overwritten(
            patches_written(data, patches, upto - 1),
            patches[upto - 1].offset as int,
            patches[upto - 1].data,
        )
    }
}

/// The ranges of the first `upto` replacements, in their order.
pub open spec fn patch_ranges(patches: Seq<Patch>, upto: int) -> Seq<Region> {
    Seq::new(
        if upto <= 0 {
            0
        } else {
            upto as nat
        },
        |i: int| Region { offset: patches[i].offset, length: patches[i].data.len() as usize },
    )
}

/// What a run makes of the file: the engine over each region in turn, then
/// each replacement written over its range.
pub open spec fn applied(
    data: Seq<u8>,
    targets: Targets,
    src: Seq<u8>,
    dst: Seq<u8>,
    min_chunk_size: usize,
) -> Seq<u8> {
    patches_written(
        regions_rewritten(
            data,
            targets.regions,
            src,
            dst,
            min_chunk_size,
            targets.regions.len() as int,
        ),
        targets.replacements,
        targets.replacements.len() as int,
    )
}

/// The ranges that a run has written to and that are to be flushed: the
/// regions in which something was replaced, then the range of every
/// replacement, whether or not it changed a byte.
pub open spec fn touched(
    data: Seq<u8>,
    targets: Targets,
    src: Seq<u8>,
    dst: Seq<u8>,
    min_chunk_size: usize,
) -> Seq<Region> {
    regions_touched(
        data,
        targets.regions,
        src,
        dst,
        min_chunk_size,
        targets.regions.len() as int,
    ) + patch_ranges(targets.replacements, targets.replacements.len() as int)
}

/// Tells whether every range that was found lies inside a file of `len`
/// bytes.
pub fn fits(found: &Found, len: usize) -> (yes: bool)
    ensures
        yes == targets_within(found@, 0, len as int),
{
    proof {
        lemma_none_outside_is_all_within(found@, 0, len as int);
    }
    find_outside(found, 0, len).is_none()
}

/// Runs the engine over one region of `data` and leaves the bytes around it
/// alone. Tells whether the engine replaced something.
pub fn rewrite_region(
    data: &mut [u8],
    region: Region,
    pattern: &PatternPair,
    min_chunk_size: usize,
) -> (hit: bool)
    requires
        region_within(region, 0, old(data)@.len() as int),
    ensures
        final(data)@ == region_rewritten(
            old(data)@,
            region,
            pattern.source_bytes(),
            pattern.destination_bytes(),
            min_chunk_size,
        ),
        final(data)@.len() == old(data)@.len(),
        hit == region_hit(
            old(data)@,
            region,
            pattern.source_bytes(),
            pattern.destination_bytes(),
            min_chunk_size,
        ),
{
    let ghost len = data@.len() as int;
    let ghost from = region.offset as int;
    let ghost to = from + region.length;
    let (head, rest) = data.split_at_mut(region.offset);
    let (window, tail) = rest.split_at_mut(region.length);
    let hit = par_replace_bytes(window, pattern, min_chunk_size);
    proof {
        assert(old(data)@.subrange(from, len).subrange(0, to - from) =~= old(data)@.subrange(
            from,
            to,
        ));
        assert(old(data)@.subrange(from, len).subrange(to - from, len - from)
            =~= old(data)@.subrange(to, len));
    }
    hit
}

/// Rewrites the file in place: runs the engine over every region, one after
/// the other, then writes every replacement over its range. Returns the
/// ranges that are to be flushed. The file keeps its length.
pub fn apply(data: &mut [u8], plan: &Found, pattern: &PatternPair, min_chunk_size: usize) -> (changed:
    Vec<Region>)
    requires
        targets_within(plan@, 0, old(data)@.len() as int),
    ensures
        final(data)@ == applied(
            old(data)@,
            plan@,
            pattern.source_bytes(),
            pattern.destination_bytes(),
            min_chunk_size,
        ),
        final(data)@.len() == old(data)@.len(),
        changed@ == touched(
            old(data)@,
            plan@,
            pattern.source_bytes(),
            pattern.destination_bytes(),
            min_chunk_size,
        ),
{
    let ghost src = pattern.source_bytes();
    let ghost dst = pattern.destination_bytes();
    let ghost targets = plan@;
    let mut changed: Vec<Region> = Vec::new();
    let mut i: usize = 0;
    while i < plan.regions.len()
        invariant
            i <= plan.regions@.len(),
            targets == plan@,
            src == pattern.source_bytes(),
            dst == pattern.destination_bytes(),
            targets_within(targets, 0, old(data)@.len() as int),
            data@.len() == old(data)@.len(),
            data@ == regions_rewritten(old(data)@, targets.regions, src, dst, min_chunk_size, i as int),
            changed@ == regions_touched(
                old(data)@,
                targets.regions,
                src,
                dst,
                min_chunk_size,
                i as int,
            ),
        decreases plan.regions@.len() - i,
    {
        let region = plan.regions[i];
        assert(region == targets.regions[i as int]);
        if rewrite_region(data, region, pattern, min_chunk_size) {
            changed.push(region);
        }
        i += 1;
    }
    let ghost rewritten = data@;
    let ghost hits = changed@;
    let mut j: usize = 0;
    while j < plan.replacements.len()
        invariant
            j <= plan.replacements@.len(),
            targets == plan@,
            targets.replacements.len() == plan.replacements@.len(),
            targets_within(targets, 0, old(data)@.len() as int),
            data@.len() == old(data)@.len(),
            data@ == patches_written(rewritten, targets.replacements, j as int),
            changed@ == hits + patch_ranges(targets.replacements, j as int),
        decreases plan.replacements@.len() - j,
    {
        let patch = &plan.replacements[j];
        assert(targets.replacements[j as int] == patch@);
        assert(patch_within(targets.replacements[j as int], 0, old(data)@.len() as int));
        overwrite(data, patch.offset, patch.data.as_slice());
        changed.push(Region { offset: patch.offset, length: patch.data.len() });
        assert(changed@ =~= hits + patch_ranges(targets.replacements, j + 1));
        j += 1;
    }
    changed
}

} // verus!
