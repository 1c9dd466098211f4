//! The archive walker: the members of an `ar` archive, one 60-byte header
//! and the declared number of bytes after the other, and the section scan of
//! each member that is an ELF image.

use crate::decimal::{field_value, parse_field};
use crate::error::{Fault, ScanError};
use crate::format::{detect_mapped_file_type, ends_with, file_type_of, has_suffix, FileType};
use crate::scan::{get_elf_sections_to_replace_in, lemma_scanned_ranges_lie_inside, scanned};
use crate::targets::{targets_within, Found, FullReplaceMap, PrefixSet, Targets};
use vstd::prelude::*;
use vstd::slice::slice_subrange;

verus! {

/// Number of bytes of the archive magic, behind which the first member
/// header starts.
pub const AR_MAGIC_LEN: usize = 8;

/// Number of bytes of a member header.
pub const AR_HEADER_LEN: usize = 60;

/// Where in a member header the size field starts.
pub const AR_SIZE_AT: usize = 48;

/// Number of bytes of the size field.
pub const AR_SIZE_LEN: usize = 10;

/// The two bytes that end every member header: a backquote and a line feed.
pub open spec fn header_terminator() -> Seq<u8> {
    seq![0x60u8, 0x0au8]
}

/// What a walk has found: how many members are ELF images, and the ranges
/// that their scans gave.
pub struct Walk {
    pub elf_members: nat,
    pub targets: Targets,
}

/// What walking the archive from `pos` on finds. At `pos` stands a member
/// header, whose size field says how many bytes of member data follow it;
/// the next header stands right behind those. A member that is an ELF image
/// is scanned, with the start of its data as base offset; any other member is
/// passed over. The first header, or the first ELF member, that cannot be
/// taken decides the failure.
pub open spec fn walked(
    data: Seq<u8>,
    pos: int,
    prefixes: Seq<Seq<u8>>,
    replacements: Map<Seq<u8>, Seq<u8>>,
) -> Result<Walk, Fault>
    decreases data.len() - pos,
    when pos >= 0
{
    if pos >= data.len() {
        Ok(Walk { elf_members: 0, targets: Targets::none() })
    } else if data.len() - pos < AR_HEADER_LEN {
        Err(Fault::TruncatedHeader { at: pos as usize })
    } else {
        let header = data.subrange(pos, pos + AR_HEADER_LEN);
        let start = pos + AR_HEADER_LEN;
        if !has_suffix(header, header_terminator()) {
            Err(Fault::CorruptHeader { at: pos as usize })
        } else {
            match field_value(header.subrange(AR_SIZE_AT as int, AR_SIZE_AT + AR_SIZE_LEN)) {
                None => Err(Fault::BadSizeField { at: pos as usize }),
                Some(size) => if size > data.len() - start {
                    Err(Fault::MemberOutOfBounds { at: pos as usize, declared: size })
                } else {
                    match member_scanned(
                        data.subrange(start, start + size),
                        start as usize,
                        prefixes,
                        replacements,
                    ) {
                        Err(fault) => Err(fault),
                        Ok(first) => joined(
                            first,
                            walked(data, start + size, prefixes, replacements),
                        ),
                    }
                },
            }
        }
    }
}

/// What one member contributes: its scan where it is an ELF image, nothing
/// where it is not.
pub open spec fn member_scanned(
    member: Seq<u8>,
    start: usize,
    prefixes: Seq<Seq<u8>>,
    replacements: Map<Seq<u8>, Seq<u8>>,
) -> Result<Walk, Fault> {
    if file_type_of(member) == FileType::ELF {
        match scanned(member, start, prefixes, replacements) {
            Err(fault) => Err(fault),
            Ok(targets) => Ok(Walk { elf_members: 1, targets }),
        }
    } else {
        Ok(Walk { elf_members: 0, targets: Targets::none() })
    }
}

/// What was found so far, followed by what the rest of the walk finds.
pub open spec fn joined(first: Walk, rest: Result<Walk, Fault>) -> Result<Walk, Fault> {
    match rest {
        Err(fault) => Err(fault),
        Ok(more) => Ok(
            Walk {
                elf_members: first.elf_members + more.elf_members,
                targets: first.targets.followed_by(more.targets),
            },
        ),
    }
}

/// The outcome of a walk: the number of ELF members and what their scans
/// found.
#[derive(Debug)]
pub struct ArchiveScan {
    pub elf_members: usize,
    pub found: Found,
}

impl View for ArchiveScan {
    type V = Walk;

    open spec fn view(&self) -> Walk {
        Walk { elf_members: self.elf_members as nat, targets: self.found@ }
    }
}

/// Walks the members of the archive `data` and scans each member that is an
/// ELF image, with the member's place in the file as base offset, so that
/// every range found is a range of the file. Members that are no ELF images
/// are passed over. Tells how many ELF members there were; none at all is no
/// failure.
pub fn get_elf_sections_to_replace_in_from_ar(
    data: &[u8],
    replacements: &FullReplaceMap,
    prefixes: &PrefixSet,
) -> (result: Result<ArchiveScan, ScanError>)
    ensures
        match result {
            Ok(scan) => walked(data@, AR_MAGIC_LEN as int, prefixes@, replacements@) == Ok::<
                Walk,
                Fault,
            >(scan@),
            Err(e) => walked(data@, AR_MAGIC_LEN as int, prefixes@, replacements@) == Err::<
                Walk,
                Fault,
            >(e@),
        },
{
    let total = data.len();
    let terminator: [u8; 2] = [0x60, 0x0a];
    assert(terminator@ =~= header_terminator());
    let mut elf_members: usize = 0;
    let mut found = Found::new();
    let mut pos: usize = AR_MAGIC_LEN;
    while pos < total
        invariant
            total == data@.len(),
            terminator@ == header_terminator(),
            pos >= AR_MAGIC_LEN,
            elf_members <= pos,
            walked(data@, AR_MAGIC_LEN as int, prefixes@, replacements@) == joined(
                Walk { elf_members: elf_members as nat, targets: found@ },
                walked(data@, pos as int, prefixes@, replacements@),
            ),
        decreases total - pos,
    {
        if total - pos < AR_HEADER_LEN {
            return Err(ScanError::TruncatedHeader { at: pos });
        }
        let header = slice_subrange(data, pos, pos + AR_HEADER_LEN);
        if !ends_with(header, &terminator) {
            return Err(ScanError::CorruptHeader { at: pos });
        }
        let size = match parse_field(
            slice_subrange(header, AR_SIZE_AT, AR_SIZE_AT + AR_SIZE_LEN),
        ) {
            Some(size) => size,
            None => {
                return Err(ScanError::BadSizeField { at: pos });
            },
        };
        let start = pos + AR_HEADER_LEN;
        if size > total - start {
            return Err(ScanError::MemberOutOfBounds { at: pos, declared: size });
        }
        let member = slice_subrange(data, start, start + size);
        let ghost before = Walk { elf_members: elf_members as nat, targets: found@ };
        let ghost rest = walked(data@, start + size, prefixes@, replacements@);
        match detect_mapped_file_type(member) {
            FileType::ELF => {
                match get_elf_sections_to_replace_in(member, replacements, start, prefixes) {
                    Ok(more) => {
                        proof {
                            let first = Walk { elf_members: 1, targets: more@ };
                            lemma_joined_twice(before, first, rest);
                        }
                        found.extend(more);
                        elf_members += 1;
                    },
                    Err(e) => {
                        return Err(e);
                    },
                }
            },
            _ => {
                proof {
                    let first = Walk { elf_members: 0, targets: Targets::none() };
                    lemma_joined_twice(before, first, rest);
                    assert(before.targets.followed_by(first.targets).regions
                        =~= before.targets.regions);
                    assert(before.targets.followed_by(first.targets).replacements
                        =~= before.targets.replacements);
                }
            },
        }
        pos = start + size;
    }
    proof {
        let all = Walk { elf_members: elf_members as nat, targets: found@ };
        let nothing = Walk { elf_members: 0, targets: Targets::none() };
        assert(all.targets.followed_by(nothing.targets).regions =~= all.targets.regions);
        assert(all.targets.followed_by(nothing.targets).replacements =~= all.targets.replacements);
    }
    Ok(ArchiveScan { elf_members, found })
}

/// Joining is associative: what was found before, then a member, then the
/// rest of the walk.
pub proof fn lemma_joined_twice(before: Walk, first: Walk, rest: Result<Walk, Fault>)
    ensures
        joined(before, joined(first, rest)) == joined(
            Walk {
                elf_members: before.elf_members + first.elf_members,
                targets: before.targets.followed_by(first.targets),
            },
            rest,
        ),
{
    if let Ok(more) = rest {
        let a = before.targets.followed_by(first.targets.followed_by(more.targets));
        let b = before.targets.followed_by(first.targets).followed_by(more.targets);
        assert(a.regions =~= b.regions);
        assert(a.replacements =~= b.replacements);
    }
}

/// Every range that one member contributes lies inside that member's data.
pub proof fn lemma_member_ranges_lie_inside(
    member: Seq<u8>,
    start: usize,
    prefixes: Seq<Seq<u8>>,
    replacements: Map<Seq<u8>, Seq<u8>>,
)
    requires
        member_scanned(member, start, prefixes, replacements) is Ok,
    ensures
        targets_within(
            member_scanned(member, start, prefixes, replacements)->Ok_0.targets,
            start as int,
            member.len() as int,
        ),
{
    if file_type_of(member) == FileType::ELF {
        lemma_scanned_ranges_lie_inside(member, start, prefixes, replacements);
    }
}

/// Every range that a walk from `pos` on finds lies between `pos` and the
/// end of the archive.
pub proof fn lemma_walked_ranges_lie_inside(
    data: Seq<u8>,
    pos: int,
    prefixes: Seq<Seq<u8>>,
    replacements: Map<Seq<u8>, Seq<u8>>,
)
    requires
        pos >= 0,
        data.len() <= usize::MAX,
        walked(data, pos, prefixes, replacements) is Ok,
    ensures
        targets_within(
            walked(data, pos, prefixes, replacements)->Ok_0.targets,
            pos,
            data.len() - pos,
        ),
    decreases data.len() - pos,
{
    if pos < data.len() {
        let start = pos + AR_HEADER_LEN;
        let size = field_value(
            data.subrange(pos, start).subrange(AR_SIZE_AT as int, AR_SIZE_AT + AR_SIZE_LEN),
        )->Some_0;
        lemma_member_ranges_lie_inside(
            data.subrange(start, start + size),
            start as usize,
            prefixes,
            replacements,
        );
        lemma_walked_ranges_lie_inside(data, start + size, prefixes, replacements);
    }
}

/// The ranges of different members keep apart. Where a walk from the member
/// header at `pos` succeeds, every range of that member lies inside the
/// member's data, and every range found behind it lies behind that data.
pub proof fn lemma_members_keep_apart(
    data: Seq<u8>,
    pos: int,
    prefixes: Seq<Seq<u8>>,
    replacements: Map<Seq<u8>, Seq<u8>>,
)
    requires
        0 <= pos < data.len(),
        data.len() <= usize::MAX,
        walked(data, pos, prefixes, replacements) is Ok,
    ensures
        ({
            let start = pos + AR_HEADER_LEN;
            let size = field_value(
                data.subrange(pos, start).subrange(AR_SIZE_AT as int, AR_SIZE_AT + AR_SIZE_LEN),
            )->Some_0;
            let member = member_scanned(
                data.subrange(start, start + size),
                start as usize,
                prefixes,
                replacements,
            );
            let rest = walked(data, start + size, prefixes, replacements);
            &&& start + size <= data.len()
            &&& member is Ok
            &&& rest is Ok
            &&& targets_within(member->Ok_0.targets, start, size as int)
            &&& targets_within(rest->Ok_0.targets, start + size, data.len() - start - size)
            &&& walked(data, pos, prefixes, replacements)->Ok_0.targets
                == member->Ok_0.targets.followed_by(rest->Ok_0.targets)
        }),
{
    let start = pos + AR_HEADER_LEN;
    let size = field_value(
        data.subrange(pos, start).subrange(AR_SIZE_AT as int, AR_SIZE_AT + AR_SIZE_LEN),
    )->Some_0;
    lemma_member_ranges_lie_inside(
        data.subrange(start, start + size),
        start as usize,
        prefixes,
        replacements,
    );
    lemma_walked_ranges_lie_inside(data, start + size, prefixes, replacements);
}

} // verus!
