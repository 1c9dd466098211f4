use binsubst::error::ScanError;
use binsubst::pattern::PatternPair;
use binsubst::plan::{apply, discover, fits, rewrite_region, MIN_CHUNK_SIZE};
use binsubst::targets::{Found, FullReplaceMap, FullReplacement, PrefixSet, Region};

struct Section {
    name: &'static [u8],
    kind: u32,
    data: Vec<u8>,
}

fn section(name: &'static [u8], data: &[u8]) -> Section {
    Section { name, kind: 1, data: data.to_vec() }
}

struct Image {
    bytes: Vec<u8>,
    // file offset of each section's data, in the order given
    offsets: Vec<usize>,
}

fn put(out: &mut Vec<u8>, value: u64, width: usize, little: bool) {
    let all = value.to_le_bytes();
    if little {
        out.extend_from_slice(&all[..width]);
    } else {
        let mut part = all[..width].to_vec();
        part.reverse();
        out.extend_from_slice(&part);
    }
}

// Lays out: header, section data, string table, section header table.
// `name_index` is written into the header as the string-table index; `link0`
// into the link field of the first (null) section header.
fn build(sections: &[Section], wide: bool, little: bool, name_index: Option<u16>, link0: u32) -> Image {
    let word = if wide { 8 } else { 4 };
    let header_len = if wide { 64 } else { 52 };
    let entry_len = if wide { 64 } else { 40 };
    let mut names = vec![0u8];
    let mut name_at = Vec::new();
    for s in sections {
        name_at.push(names.len());
        names.extend_from_slice(s.name);
        names.push(0);
    }
    let names_name = names.len();
    names.extend_from_slice(b".shstrtab\0");

    let mut body = Vec::new();
    let mut offsets = Vec::new();
    for s in sections {
        offsets.push(header_len + body.len());
        body.extend_from_slice(&s.data);
    }
    let names_offset = header_len + body.len();
    body.extend_from_slice(&names);
    let table_offset = header_len + body.len();
    let count = sections.len() + 2;
    let names_section = (sections.len() + 1) as u16;

    let mut out = vec![0x7f, b'E', b'L', b'F', if wide { 2 } else { 1 }, if little { 1 } else { 2 }, 1, 0];
    out.extend_from_slice(&[0u8; 8]);
    put(&mut out, 1, 2, little); // e_type
    put(&mut out, 62, 2, little); // e_machine
    put(&mut out, 1, 4, little); // e_version
    put(&mut out, 0, word, little); // e_entry
    put(&mut out, 0, word, little); // e_phoff
    put(&mut out, table_offset as u64, word, little); // e_shoff
    put(&mut out, 0, 4, little); // e_flags
    put(&mut out, header_len as u64, 2, little); // e_ehsize
    put(&mut out, 0, 2, little); // e_phentsize
    put(&mut out, 0, 2, little); // e_phnum
    put(&mut out, entry_len as u64, 2, little); // e_shentsize
    put(&mut out, count as u64, 2, little); // e_shnum
    put(&mut out, name_index.unwrap_or(names_section) as u64, 2, little); // e_shstrndx
    assert_eq!(out.len(), header_len);
    out.extend_from_slice(&body);

    let mut entry = |out: &mut Vec<u8>, name: usize, kind: u32, offset: usize, size: usize, link: u32| {
        put(out, name as u64, 4, little);
        put(out, kind as u64, 4, little);
        put(out, 0, word, little); // sh_flags
        put(out, 0, word, little); // sh_addr
        put(out, offset as u64, word, little);
        put(out, size as u64, word, little);
        put(out, link as u64, 4, little);
        put(out, 0, 4, little); // sh_info
        put(out, 1, word, little); // sh_addralign
        put(out, 0, word, little); // sh_entsize
    };
    entry(&mut out, 0, 0, 0, 0, link0);
    for (i, s) in sections.iter().enumerate() {
        entry(&mut out, name_at[i], s.kind, offsets[i], s.data.len(), 0);
    }
    entry(&mut out, names_name, 3, names_offset, names.len(), 0);
    Image { bytes: out, offsets }
}

fn elf64(sections: &[Section]) -> Image {
    build(sections, true, true, None, 0)
}

fn member_header(name: &[u8], size_field: &[u8]) -> Vec<u8> {
    let mut header = vec![b' '; 60];
    header[..name.len()].copy_from_slice(name);
    header[16..17].copy_from_slice(b"0");
    header[28..29].copy_from_slice(b"0");
    header[34..35].copy_from_slice(b"0");
    header[40..43].copy_from_slice(b"644");
    header[48..48 + size_field.len()].copy_from_slice(size_field);
    header[58] = b'`';
    header[59] = b'\n';
    header
}

// An archive of the given members, each right behind the other, with no
// padding. Returns the bytes and where each member's data starts.
fn archive(members: &[(&[u8], Vec<u8>)]) -> (Vec<u8>, Vec<usize>) {
    let mut out = b"!<arch>\n".to_vec();
    let mut starts = Vec::new();
    for (name, data) in members {
        out.extend_from_slice(&member_header(name, data.len().to_string().as_bytes()));
        starts.push(out.len());
        out.extend_from_slice(data);
    }
    (out, starts)
}

fn object() -> Image {
    elf64(&[
        section(b".text", b"/build/tree in code"),
        section(b".rodata", b"/build/tree/a.c\0/build/tree/b.c\0"),
        section(b".note.build-id", b"0123456789abcdef"),
        section(b".debug_str", b"comp dir /build/tree\0"),
    ])
}

fn pattern() -> PatternPair {
    PatternPair::new(b"/build/tree".to_vec(), b"/canon/path".to_vec()).unwrap()
}

#[test]
fn an_elf_file_gives_the_ranges_of_its_sections() {
    let image = object();
    let plan = discover(&image.bytes, &PrefixSet::standard(), &FullReplaceMap::new()).unwrap();
    assert_eq!(
        plan.regions,
        vec![
            Region { offset: image.offsets[1], length: 32 },
            Region { offset: image.offsets[3], length: 21 },
        ]
    );
    assert!(fits(&plan, image.bytes.len()));
}

#[test]
fn a_file_of_unknown_kind_is_one_region() {
    let data = b"just some text with /build/tree in it".to_vec();
    let plan = discover(&data, &PrefixSet::standard(), &FullReplaceMap::new()).unwrap();
    assert_eq!(plan.regions, vec![Region { offset: 0, length: data.len() }]);
    assert!(plan.replacements.is_empty());
    let plan = discover(b"", &PrefixSet::standard(), &FullReplaceMap::new()).unwrap();
    assert_eq!(plan.regions, vec![Region { offset: 0, length: 0 }]);
}

#[test]
fn an_archive_without_elf_members_is_one_region() {
    let (bytes, _) = archive(&[(b"a.txt/", b"see /build/tree".to_vec())]);
    let plan = discover(&bytes, &PrefixSet::standard(), &FullReplaceMap::new()).unwrap();
    assert_eq!(plan.regions, vec![Region { offset: 0, length: bytes.len() }]);
}

#[test]
fn an_archive_with_elf_members_gives_their_ranges_only() {
    let image = object();
    let (bytes, starts) =
        archive(&[(b"a.txt/", b"see /build/tree".to_vec()), (b"a.o/", image.bytes.clone())]);
    let plan = discover(&bytes, &PrefixSet::standard(), &FullReplaceMap::new()).unwrap();
    assert_eq!(
        plan.regions,
        vec![
            Region { offset: starts[1] + image.offsets[1], length: 32 },
            Region { offset: starts[1] + image.offsets[3], length: 21 },
        ]
    );
}

#[test]
fn a_replacement_needs_a_file_with_sections() {
    let mut map = FullReplaceMap::new();
    map.insert(b".note.build-id".to_vec(), b"fedcba9876543210".to_vec());
    let result = discover(b"plain text", &PrefixSet::standard(), &map);
    assert!(matches!(result, Err(ScanError::UnknownFileType)));
    let (bytes, _) = archive(&[(b"a.txt/", b"text".to_vec())]);
    let result = discover(&bytes, &PrefixSet::standard(), &map);
    assert!(matches!(result, Err(ScanError::NoElfInArchive)));
}

#[test]
fn a_replacement_for_a_section_that_the_file_lacks_is_refused() {
    let image = object();
    let mut map = FullReplaceMap::new();
    map.insert(b".note.build-id".to_vec(), b"fedcba9876543210".to_vec());
    map.insert(b".no.such.section".to_vec(), b"bytes".to_vec());
    match discover(&image.bytes, &PrefixSet::standard(), &map) {
        Err(ScanError::SectionNotFound { name }) => assert_eq!(name, b".no.such.section".to_vec()),
        other => panic!("expected a missing section, got {:?}", other),
    }
    // in an archive one member that has the section is enough
    let other = elf64(&[section(b".rodata", b"abc")]);
    let mut map = FullReplaceMap::new();
    map.insert(b".note.build-id".to_vec(), b"fedcba9876543210".to_vec());
    let (bytes, starts) = archive(&[(b"o.o/", other.bytes.clone()), (b"a.o/", image.bytes.clone())]);
    let plan = discover(&bytes, &PrefixSet::standard(), &map).unwrap();
    assert_eq!(plan.replacements.len(), 1);
    assert_eq!(plan.replacements[0].offset, starts[1] + image.offsets[2]);
}

#[test]
fn a_section_that_reaches_past_the_end_of_the_file_is_refused() {
    let image = object();
    let mut bytes = image.bytes.clone();
    // the size of .rodata: its header is the fourth from the end
    let at = bytes.len() - 4 * 64 + 32;
    bytes[at..at + 8].copy_from_slice(&1_000_000u64.to_le_bytes());
    match discover(&bytes, &PrefixSet::standard(), &FullReplaceMap::new()) {
        Err(ScanError::RangeOutOfBounds { start, length }) => {
            assert_eq!(start, image.offsets[1]);
            assert_eq!(length, 1_000_000);
        }
        other => panic!("expected a range out of bounds, got {:?}", other),
    }
}

#[test]
fn truncated_archive_header_is_refused() {
    let (bytes, _) = archive(&[(b"a.txt/", b"text".to_vec())]);
    let mut cut = bytes.clone();
    cut.extend_from_slice(&bytes[8..40]);
    let result = discover(&cut, &PrefixSet::standard(), &FullReplaceMap::new());
    assert!(matches!(result, Err(ScanError::TruncatedHeader { .. })));
}

#[test]
fn a_run_rewrites_the_regions_and_nothing_else() {
    let image = object();
    let mut data = image.bytes.clone();
    let plan = discover(&data, &PrefixSet::standard(), &FullReplaceMap::new()).unwrap();
    assert!(fits(&plan, data.len()));
    let changed = apply(&mut data, &plan, &pattern(), MIN_CHUNK_SIZE);
    assert_eq!(data.len(), image.bytes.len());
    let mut expected = image.bytes.clone();
    let rodata = image.offsets[1];
    expected[rodata..rodata + 32].copy_from_slice(b"/canon/path/a.c\0/canon/path/b.c\0");
    let debug = image.offsets[3];
    expected[debug..debug + 21].copy_from_slice(b"comp dir /canon/path\0");
    assert_eq!(data, expected);
    // the path in .text is outside every region and stays
    assert_eq!(&data[image.offsets[0]..image.offsets[0] + 11], b"/build/tree");
    assert_eq!(changed, plan.regions);
}

#[test]
fn only_what_changed_is_to_be_flushed() {
    let image = elf64(&[
        section(b".rodata", b"nothing to replace here"),
        section(b".debug_str", b"/build/tree\0"),
        section(b".comment", b"abcd"),
    ]);
    let mut map = FullReplaceMap::new();
    map.insert(b".comment".to_vec(), b"abcd".to_vec());
    let mut data = image.bytes.clone();
    let plan = discover(&data, &PrefixSet::standard(), &map).unwrap();
    assert_eq!(plan.regions.len(), 2);
    let changed = apply(&mut data, &plan, &pattern(), 0);
    // the region without an occurrence is left out; the replacement is
    // listed although it wrote the bytes that stood there
    assert_eq!(
        changed,
        vec![
            Region { offset: image.offsets[1], length: 12 },
            Region { offset: image.offsets[2], length: 4 },
        ]
    );
}

#[test]
fn a_full_replacement_sets_its_range_and_nothing_else() {
    let image = object();
    let mut map = FullReplaceMap::new();
    map.insert(b".note.build-id".to_vec(), b"fedcba9876543210".to_vec());
    let mut data = image.bytes.clone();
    let mut plan = discover(&data, &PrefixSet::standard(), &map).unwrap();
    plan.regions.clear();
    let changed = apply(&mut data, &plan, &pattern(), MIN_CHUNK_SIZE);
    let at = image.offsets[2];
    assert_eq!(&data[at..at + 16], b"fedcba9876543210");
    assert_eq!(&data[..at], &image.bytes[..at]);
    assert_eq!(&data[at + 16..], &image.bytes[at + 16..]);
    assert_eq!(changed, vec![Region { offset: at, length: 16 }]);
}

#[test]
fn regions_come_before_replacements() {
    // the replacement is written last and stands, whatever the engine made
    // of the same bytes before
    let mut data = b"..../build/tree....".to_vec();
    let mut plan = Found::new();
    plan.regions.push(Region { offset: 0, length: data.len() });
    plan.replacements.push(FullReplacement {
        name: b"x".to_vec(),
        offset: 4,
        data: b"/build/tree".to_vec(),
    });
    assert!(fits(&plan, data.len()));
    let changed = apply(&mut data, &plan, &pattern(), 16);
    assert_eq!(data, b"..../build/tree....".to_vec());
    assert_eq!(changed.len(), 2);
}

#[test]
fn a_whole_file_run_on_an_unknown_file() {
    let mut data = Vec::new();
    for i in 0..5000 {
        data.extend_from_slice(b"/build/tree/file");
        data.extend_from_slice(i.to_string().as_bytes());
        data.push(b'\n');
    }
    let before = data.clone();
    let plan = discover(&data, &PrefixSet::standard(), &FullReplaceMap::new()).unwrap();
    let changed = apply(&mut data, &plan, &pattern(), 1024);
    assert_eq!(changed, vec![Region { offset: 0, length: before.len() }]);
    assert_eq!(data.len(), before.len());
    let text = String::from_utf8(before).unwrap().replace("/build/tree", "/canon/path");
    assert_eq!(data, text.into_bytes());
    // a second run finds nothing to do
    let changed = apply(&mut data, &plan, &pattern(), 1024);
    assert!(changed.is_empty());
}

#[test]
fn fits_tells_whether_every_range_lies_inside() {
    let mut plan = Found::new();
    assert!(fits(&plan, 0));
    plan.regions.push(Region { offset: 3, length: 7 });
    assert!(fits(&plan, 10));
    assert!(!fits(&plan, 9));
    plan.replacements.push(FullReplacement { name: b"x".to_vec(), offset: 10, data: vec![1] });
    assert!(!fits(&plan, 10));
    assert!(fits(&plan, 11));
    plan.regions.push(Region { offset: usize::MAX, length: 2 });
    assert!(!fits(&plan, usize::MAX));
}

#[test]
fn rewrite_region_leaves_the_surroundings_alone() {
    let mut data = b"/build/tree|/build/tree|/build/tree".to_vec();
    let hit = rewrite_region(&mut data, Region { offset: 12, length: 11 }, &pattern(), 0);
    assert!(hit);
    assert_eq!(data, b"/build/tree|/canon/path|/build/tree".to_vec());
    // an occurrence that is not wholly inside the region is not one of it
    let hit = rewrite_region(&mut data, Region { offset: 1, length: 11 }, &pattern(), 0);
    assert!(!hit);
    assert_eq!(data, b"/build/tree|/canon/path|/build/tree".to_vec());
}

#[test]
fn a_file_too_short_to_be_classified_is_one_region() {
    let data = b"\x7fELF\x02\x01\x01".to_vec();
    let plan = discover(&data, &PrefixSet::standard(), &FullReplaceMap::new()).unwrap();
    assert_eq!(plan.regions, vec![Region { offset: 0, length: 7 }]);
    let mut map = FullReplaceMap::new();
    map.insert(b".comment".to_vec(), b"x".to_vec());
    assert!(matches!(discover(&data, &PrefixSet::standard(), &map), Err(ScanError::UnknownFileType)));
}

#[test]
fn every_range_that_is_found_lies_inside_the_file() {
    let image = object();
    let (bytes, _) = archive(&[(b"a.o/", image.bytes.clone()), (b"b.o/", image.bytes.clone())]);
    for data in [image.bytes.clone(), bytes, b"plain".to_vec()] {
        let plan = discover(&data, &PrefixSet::standard(), &FullReplaceMap::new()).unwrap();
        assert!(fits(&plan, data.len()));
    }
}
