use binsubst::archive::get_elf_sections_to_replace_in_from_ar;
use binsubst::error::ScanError;
use binsubst::format::ends_with;
use binsubst::scan::get_elf_sections_to_replace_in;
use binsubst::targets::{FullReplaceMap, FullReplacement, PrefixSet, Region};

struct Section {
    name: &'static [u8],
    kind: u32,
    data: Vec<u8>,
}

fn section(name: &'static [u8], data: &[u8]) -> Section {
    Section { name, kind: 1, data: data.to_vec() }
}

struct Image {
    bytes: Vec<u8>,
    // file offset of each section's data, in the order given
    offsets: Vec<usize>,
}

fn put(out: &mut Vec<u8>, value: u64, width: usize, little: bool) {
    let all = value.to_le_bytes();
    if little {
        out.extend_from_slice(&all[..width]);
    } else {
        let mut part = all[..width].to_vec();
        part.reverse();
        out.extend_from_slice(&part);
    }
}

// Lays out: header, section data, string table, section header table.
// `name_index` is written into the header as the string-table index; `link0`
// into the link field of the first (null) section header.
fn build(sections: &[Section], wide: bool, little: bool, name_index: Option<u16>, link0: u32) -> Image {
    let word = if wide { 8 } else { 4 };
    let header_len = if wide { 64 } else { 52 };
    let entry_len = if wide { 64 } else { 40 };
    let mut names = vec![0u8];
    let mut name_at = Vec::new();
    for s in sections {
        name_at.push(names.len());
        names.extend_from_slice(s.name);
        names.push(0);
    }
    let names_name = names.len();
    names.extend_from_slice(b".shstrtab\0");

    let mut body = Vec::new();
    let mut offsets = Vec::new();
    for s in sections {
        offsets.push(header_len + body.len());
        body.extend_from_slice(&s.data);
    }
    let names_offset = header_len + body.len();
    body.extend_from_slice(&names);
    let table_offset = header_len + body.len();
    let count = sections.len() + 2;
    let names_section = (sections.len() + 1) as u16;

    let mut out = vec![0x7f, b'E', b'L', b'F', if wide { 2 } else { 1 }, if little { 1 } else { 2 }, 1, 0];
    out.extend_from_slice(&[0u8; 8]);
    put(&mut out, 1, 2, little); // e_type
    put(&mut out, 62, 2, little); // e_machine
    put(&mut out, 1, 4, little); // e_version
    put(&mut out, 0, word, little); // e_entry
    put(&mut out, 0, word, little); // e_phoff
    put(&mut out, table_offset as u64, word, little); // e_shoff
    put(&mut out, 0, 4, little); // e_flags
    put(&mut out, header_len as u64, 2, little); // e_ehsize
    put(&mut out, 0, 2, little); // e_phentsize
    put(&mut out, 0, 2, little); // e_phnum
    put(&mut out, entry_len as u64, 2, little); // e_shentsize
    put(&mut out, count as u64, 2, little); // e_shnum
    put(&mut out, name_index.unwrap_or(names_section) as u64, 2, little); // e_shstrndx
    assert_eq!(out.len(), header_len);
    out.extend_from_slice(&body);

    let mut entry = |out: &mut Vec<u8>, name: usize, kind: u32, offset: usize, size: usize, link: u32| {
        put(out, name as u64, 4, little);
        put(out, kind as u64, 4, little);
        put(out, 0, word, little); // sh_flags
        put(out, 0, word, little); // sh_addr
        put(out, offset as u64, word, little);
        put(out, size as u64, word, little);
        put(out, link as u64, 4, little);
        put(out, 0, 4, little); // sh_info
        put(out, 1, word, little); // sh_addralign
        put(out, 0, word, little); // sh_entsize
    };
    entry(&mut out, 0, 0, 0, 0, link0);
    for (i, s) in sections.iter().enumerate() {
        entry(&mut out, name_at[i], s.kind, offsets[i], s.data.len(), 0);
    }
    entry(&mut out, names_name, 3, names_offset, names.len(), 0);
    Image { bytes: out, offsets }
}

fn elf64(sections: &[Section]) -> Image {
    build(sections, true, true, None, 0)
}

fn member_header(name: &[u8], size_field: &[u8]) -> Vec<u8> {
    let mut header = vec![b' '; 60];
    header[..name.len()].copy_from_slice(name);
    header[16..17].copy_from_slice(b"0");
    header[28..29].copy_from_slice(b"0");
    header[34..35].copy_from_slice(b"0");
    header[40..43].copy_from_slice(b"644");
    header[48..48 + size_field.len()].copy_from_slice(size_field);
    header[58] = b'`';
    header[59] = b'\n';
    header
}

// An archive of the given members, each right behind the other, with no
// padding. Returns the bytes and where each member's data starts.
fn archive(members: &[(&[u8], Vec<u8>)]) -> (Vec<u8>, Vec<usize>) {
    let mut out = b"!<arch>\n".to_vec();
    let mut starts = Vec::new();
    for (name, data) in members {
        out.extend_from_slice(&member_header(name, data.len().to_string().as_bytes()));
        starts.push(out.len());
        out.extend_from_slice(data);
    }
    (out, starts)
}

fn object(tag: &[u8]) -> Image {
    let mut text = b"/build/tree/".to_vec();
    text.extend_from_slice(tag);
    text.push(0);
    elf64(&[
        section(b".text", b"\x90\x90\x90"),
        section(b".rodata", &text),
        section(b".comment", b"GCC 1.2.3"),
        section(b".debug_str", b"/build/tree\0"),
    ])
}

#[test]
fn walk_finds_the_regions_of_every_elf_member() {
    let first = object(b"a.c");
    let second = object(b"longer_name.c");
    let (bytes, starts) = archive(&[
        (b"/               ", b"symbol table, not an image".to_vec()),
        (b"a.o/            ", first.bytes.clone()),
        (b"readme.txt/     ", b"plain text".to_vec()),
        (b"b.o/            ", second.bytes.clone()),
        (b"macho.o/        ", b"\xcf\xfa\xed\xfe other object format".to_vec()),
    ]);
    let scan =
        get_elf_sections_to_replace_in_from_ar(&bytes, &FullReplaceMap::new(), &PrefixSet::standard())
            .unwrap();
    assert_eq!(scan.elf_members, 2);
    assert_eq!(
        scan.found.regions,
        vec![
            Region { offset: starts[1] + first.offsets[1], length: 16 },
            Region { offset: starts[1] + first.offsets[3], length: 12 },
            Region { offset: starts[3] + second.offsets[1], length: 26 },
            Region { offset: starts[3] + second.offsets[3], length: 12 },
        ]
    );
    assert!(scan.found.replacements.is_empty());
    // each range is the member's own range, moved to where the member lies
    let own = get_elf_sections_to_replace_in(&second.bytes, &FullReplaceMap::new(), 0, &PrefixSet::standard())
        .unwrap();
    for (i, region) in own.regions.iter().enumerate() {
        assert_eq!(scan.found.regions[2 + i].offset, starts[3] + region.offset);
        assert_eq!(scan.found.regions[2 + i].length, region.length);
        let at = scan.found.regions[2 + i].offset;
        assert_eq!(
            &bytes[at..at + region.length],
            &second.bytes[region.offset..region.offset + region.length]
        );
    }
}

#[test]
fn walk_takes_full_replacements_from_every_member_that_has_the_section() {
    let first = object(b"a.c");
    let second = object(b"b.c");
    let (bytes, starts) =
        archive(&[(b"a.o/", first.bytes.clone()), (b"b.o/", second.bytes.clone())]);
    let mut map = FullReplaceMap::new();
    map.insert(b".comment".to_vec(), b"clang 9.9".to_vec());
    let scan = get_elf_sections_to_replace_in_from_ar(&bytes, &map, &PrefixSet::standard()).unwrap();
    assert_eq!(scan.elf_members, 2);
    assert_eq!(
        scan.found.replacements,
        vec![
            FullReplacement {
                name: b".comment".to_vec(),
                offset: starts[0] + first.offsets[2],
                data: b"clang 9.9".to_vec()
            },
            FullReplacement {
                name: b".comment".to_vec(),
                offset: starts[1] + second.offsets[2],
                data: b"clang 9.9".to_vec()
            },
        ]
    );
}

#[test]
fn walk_without_elf_members_finds_nothing_and_is_no_failure() {
    let (bytes, _) = archive(&[(b"a.txt/", b"one".to_vec()), (b"b.txt/", b"two!".to_vec())]);
    let scan =
        get_elf_sections_to_replace_in_from_ar(&bytes, &FullReplaceMap::new(), &PrefixSet::standard())
            .unwrap();
    assert_eq!(scan.elf_members, 0);
    assert!(scan.found.regions.is_empty());
    let scan =
        get_elf_sections_to_replace_in_from_ar(b"!<arch>\n", &FullReplaceMap::new(), &PrefixSet::standard())
            .unwrap();
    assert_eq!(scan.elf_members, 0);
}

#[test]
fn walk_steps_by_the_declared_size_without_padding() {
    // a member of odd length is followed at once by the next header
    let image = object(b"a.c");
    let (bytes, starts) = archive(&[(b"odd/", b"12345".to_vec()), (b"a.o/", image.bytes.clone())]);
    assert_eq!(starts[1], 8 + 60 + 5 + 60);
    let scan =
        get_elf_sections_to_replace_in_from_ar(&bytes, &FullReplaceMap::new(), &PrefixSet::standard())
            .unwrap();
    assert_eq!(scan.elf_members, 1);
    assert_eq!(scan.found.regions[0].offset, starts[1] + image.offsets[1]);
    // with a padding byte behind the odd member the next header is off by one
    let mut padded = bytes[..8 + 60 + 5].to_vec();
    padded.push(b'\n');
    padded.extend_from_slice(&bytes[8 + 60 + 5..]);
    let result =
        get_elf_sections_to_replace_in_from_ar(&padded, &FullReplaceMap::new(), &PrefixSet::standard());
    assert!(matches!(result, Err(ScanError::CorruptHeader { at: 73 })));
}

#[test]
fn walk_refuses_an_archive_that_ends_inside_a_header() {
    let (bytes, _) = archive(&[(b"a.txt/", b"one".to_vec())]);
    let mut cut = bytes.clone();
    cut.extend_from_slice(&member_header(b"b.txt/", b"3")[..59]);
    let result =
        get_elf_sections_to_replace_in_from_ar(&cut, &FullReplaceMap::new(), &PrefixSet::standard());
    assert!(matches!(result, Err(ScanError::TruncatedHeader { at: 71 })));
    let result = get_elf_sections_to_replace_in_from_ar(
        b"!<arch>\nx",
        &FullReplaceMap::new(),
        &PrefixSet::standard(),
    );
    assert!(matches!(result, Err(ScanError::TruncatedHeader { at: 8 })));
}

#[test]
fn walk_refuses_a_header_without_its_terminator() {
    let (mut bytes, _) = archive(&[(b"a.txt/", b"one".to_vec())]);
    bytes[8 + 59] = b' ';
    let result =
        get_elf_sections_to_replace_in_from_ar(&bytes, &FullReplaceMap::new(), &PrefixSet::standard());
    assert!(matches!(result, Err(ScanError::CorruptHeader { at: 8 })));
}

#[test]
fn walk_refuses_a_size_that_is_no_number() {
    let mut bytes = b"!<arch>\n".to_vec();
    bytes.extend_from_slice(&member_header(b"a.txt/", b"3x"));
    bytes.extend_from_slice(b"one");
    let result =
        get_elf_sections_to_replace_in_from_ar(&bytes, &FullReplaceMap::new(), &PrefixSet::standard());
    assert!(matches!(result, Err(ScanError::BadSizeField { at: 8 })));
    let mut bytes = b"!<arch>\n".to_vec();
    bytes.extend_from_slice(&member_header(b"a.txt/", b""));
    let result =
        get_elf_sections_to_replace_in_from_ar(&bytes, &FullReplaceMap::new(), &PrefixSet::standard());
    assert!(matches!(result, Err(ScanError::BadSizeField { at: 8 })));
}

#[test]
fn walk_refuses_a_member_that_is_longer_than_the_archive() {
    let mut bytes = b"!<arch>\n".to_vec();
    bytes.extend_from_slice(&member_header(b"a.txt/", b"4"));
    bytes.extend_from_slice(b"one");
    let result =
        get_elf_sections_to_replace_in_from_ar(&bytes, &FullReplaceMap::new(), &PrefixSet::standard());
    assert!(matches!(result, Err(ScanError::MemberOutOfBounds { at: 8, declared: 4 })));
}

#[test]
fn walk_fails_where_an_elf_member_cannot_be_scanned() {
    let (bytes, _) = archive(&[(b"bad.o/", b"\x7fELF and then nothing of use".to_vec())]);
    let result =
        get_elf_sections_to_replace_in_from_ar(&bytes, &FullReplaceMap::new(), &PrefixSet::standard());
    assert!(matches!(result, Err(ScanError::MalformedElf(_))));
}

#[test]
fn ends_with_looks_at_the_last_bytes() {
    assert!(ends_with(b"header`\n", b"`\n"));
    assert!(!ends_with(b"header`\n ", b"`\n"));
    assert!(!ends_with(b"\n", b"`\n"));
    assert!(ends_with(b"anything", b""));
}

#[test]
fn walk_refuses_a_section_that_reaches_into_the_next_member() {
    let first = object(b"a.c");
    let mut bytes = first.bytes.clone();
    // the size of .rodata (section 2): its header is the fourth from the end
    let at = bytes.len() - 4 * 64 + 32;
    let past = (bytes.len() - first.offsets[1] + 10) as u64;
    bytes[at..at + 8].copy_from_slice(&past.to_le_bytes());
    let second = object(b"b.c");
    let (archive_bytes, starts) = archive(&[(b"a.o/", bytes), (b"b.o/", second.bytes.clone())]);
    let result =
        get_elf_sections_to_replace_in_from_ar(&archive_bytes, &FullReplaceMap::new(), &PrefixSet::standard());
    match result {
        Err(ScanError::RangeOutOfBounds { start, length }) => {
            assert_eq!(start, starts[0] + first.offsets[1]);
            assert_eq!(length, past as usize);
        }
        other => panic!("expected a range out of bounds, got {:?}", other),
    }
}

#[test]
fn walk_keeps_the_ranges_of_different_members_apart() {
    let images = [object(b"a.c"), object(b"bb.c"), object(b"ccc.c")];
    let members: Vec<(&[u8], Vec<u8>)> =
        images.iter().map(|i| (&b"m.o/"[..], i.bytes.clone())).collect();
    let (bytes, starts) = archive(&members);
    let scan =
        get_elf_sections_to_replace_in_from_ar(&bytes, &FullReplaceMap::new(), &PrefixSet::standard())
            .unwrap();
    assert_eq!(scan.found.regions.len(), 6);
    for (k, pair) in scan.found.regions.chunks(2).enumerate() {
        for region in pair {
            assert!(starts[k] <= region.offset);
            assert!(region.offset + region.length <= starts[k] + images[k].bytes.len());
        }
    }
}

#[test]
fn walk_passes_over_a_member_too_short_to_be_classified() {
    let (bytes, _) = archive(&[(b"tiny/", b"\x7fELF\x02\x01".to_vec()), (b"none/", Vec::new())]);
    let scan =
        get_elf_sections_to_replace_in_from_ar(&bytes, &FullReplaceMap::new(), &PrefixSet::standard())
            .unwrap();
    assert_eq!(scan.elf_members, 0);
    assert!(scan.found.regions.is_empty());
}
