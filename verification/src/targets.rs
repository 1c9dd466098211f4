//! What a scan looks for and what it finds: the section-name prefixes that
//! mark a section for substitution, the names of the sections to replace
//! outright, and the byte ranges that come out.

use crate::format::{has_prefix, starts_with};
use vstd::prelude::*;
use vstd::slice::slice_to_vec;

verus! {

/// A byte range of the target file in which the pattern is to be substituted.
#[derive(Clone, Copy, Debug, PartialEq, Eq, Structural)]
pub struct Region {
    pub offset: usize,
    pub length: usize,
}

/// A byte range of the target file, given by its start and the bytes that are
/// to stand there: as many as the section of the given name held.
#[derive(Clone, Debug, PartialEq, Eq)]
pub struct FullReplacement {
    pub name: Vec<u8>,
    pub offset: usize,
    pub data: Vec<u8>,
}

/// A full replacement as contracts speak of it.
pub struct Patch {
    pub name: Seq<u8>,
    pub offset: usize,
    pub data: Seq<u8>,
}

impl View for FullReplacement {
    type V = Patch;

    open spec fn view(&self) -> Patch {
        Patch { name: self.name@, offset: self.offset, data: self.data@ }
    }
}

/// The ranges that a scan has found, as contracts speak of them.
pub struct Targets {
    pub regions: Seq<Region>,
    pub replacements: Seq<Patch>,
}

impl Targets {
    /// No range at all.
    pub open spec fn none() -> Targets {
        Targets { regions: Seq::empty(), replacements: Seq::empty() }
    }

    /// The ranges of `self`, then those of `more`.
    pub open spec fn followed_by(self, more: Targets) -> Targets {
        Targets {
            regions: self.regions + more.regions,
            replacements: self.replacements + more.replacements,
        }
    }
}

/// The ranges that a scan has found: the regions in which to substitute, and
/// the ranges to replace outright, each list in the order of finding.
#[derive(Debug)]
pub struct Found {
    pub regions: Vec<Region>,
    pub replacements: Vec<FullReplacement>,
}

impl View for Found {
    type V = Targets;

    open spec fn view(&self) -> Targets {
        Targets {
            regions: self.regions@,
            replacements: Seq::new(self.replacements@.len(), |i: int| self.replacements@[i]@),
        }
    }
}

impl Found {
    /// Nothing found.
    pub fn new() -> (found: Found)
        ensures
            found@ == Targets::none(),
    {
        let found = Found { regions: Vec::new(), replacements: Vec::new() };
        assert(found@.replacements =~= Seq::empty());
        found
    }

    /// Adds the ranges of `more` behind those of `self`.
    pub fn extend(&mut self, more: Found)
        ensures
            final(self)@ == old(self)@.followed_by(more@),
    {
        let mut more = more;
        let ghost added = more@;
        self.regions.append(&mut more.regions);
        self.replacements.append(&mut more.replacements);
        assert(self@.replacements =~= old(self)@.replacements + added.replacements);
    }
}

/// The region lies inside the `len` bytes that start at `base`.
pub open spec fn region_within(region: Region, base: int, len: int) -> bool {
    base <= region.offset && region.offset + region.length <= base + len
}

/// The range that a replacement is written over.
pub open spec fn patch_range(patch: Patch) -> Region {
    Region { offset: patch.offset, length: patch.data.len() as usize }
}

/// The replacement lies inside the `len` bytes that start at `base`.
pub open spec fn patch_within(patch: Patch, base: int, len: int) -> bool {
    base <= patch.offset && patch.offset + patch.data.len() <= base + len
}

/// Every range lies inside the `len` bytes that start at `base`.
pub open spec fn targets_within(targets: Targets, base: int, len: int) -> bool {
    &&& forall|i: int|
        0 <= i < targets.regions.len() ==> region_within(#[trigger] targets.regions[i], base, len)
    &&& forall|i: int|
        0 <= i < targets.replacements.len() ==> patch_within(
            #[trigger] targets.replacements[i],
            base,
            len,
        )
}

/// The first region from index `from` on that does not lie inside.
pub open spec fn first_region_outside(regions: Seq<Region>, base: int, len: int, from: int) -> Option<
    Region,
>
    decreases regions.len() - from,
{
    if from < 0 || from >= regions.len() {
        None
    } else if !region_within(regions[from], base, len) {
        Some(regions[from])
    } else {
        first_region_outside(regions, base, len, from + 1)
    }
}

/// The range of the first replacement from index `from` on that does not
/// lie inside.
pub open spec fn first_patch_outside(patches: Seq<Patch>, base: int, len: int, from: int) -> Option<
    Region,
>
    decreases patches.len() - from,
{
    if from < 0 || from >= patches.len() {
        None
    } else if !patch_within(patches[from], base, len) {
        Some(patch_range(patches[from]))
    } else {
        first_patch_outside(patches, base, len, from + 1)
    }
}

/// The first range, regions before replacements, that does not lie inside
/// the `len` bytes that start at `base`.
pub open spec fn first_outside(targets: Targets, base: int, len: int) -> Option<Region> {
    match first_region_outside(targets.regions, base, len, 0) {
        Some(region) => Some(region),
        None => first_patch_outside(targets.replacements, base, len, 0),
    }
}

/// Where no region from `from` on is outside, every one of them is inside.
pub proof fn lemma_no_region_outside(regions: Seq<Region>, base: int, len: int, from: int)
    requires
        0 <= from,
        first_region_outside(regions, base, len, from) is None,
    ensures
        forall|i: int| from <= i < regions.len() ==> region_within(#[trigger] regions[i], base, len),
    decreases regions.len() - from,
{
    if from < regions.len() {
        lemma_no_region_outside(regions, base, len, from + 1);
    }
}

/// Where no replacement from `from` on is outside, every one of them is
/// inside.
pub proof fn lemma_no_patch_outside(patches: Seq<Patch>, base: int, len: int, from: int)
    requires
        0 <= from,
        first_patch_outside(patches, base, len, from) is None,
    ensures
        forall|i: int| from <= i < patches.len() ==> patch_within(#[trigger] patches[i], base, len),
    decreases patches.len() - from,
{
    if from < patches.len() {
        lemma_no_patch_outside(patches, base, len, from + 1);
    }
}

/// No range is outside exactly where every range is inside.
pub proof fn lemma_none_outside_is_all_within(targets: Targets, base: int, len: int)
    ensures
        first_outside(targets, base, len) is None <==> targets_within(targets, base, len),
{
    if first_outside(targets, base, len) is None {
        lemma_no_region_outside(targets.regions, base, len, 0);
        lemma_no_patch_outside(targets.replacements, base, len, 0);
    }
    if targets_within(targets, base, len) {
        lemma_all_regions_within(targets.regions, base, len, 0);
        lemma_all_patches_within(targets.replacements, base, len, 0);
    }
}

/// Where every region is inside, none is found outside.
proof fn lemma_all_regions_within(regions: Seq<Region>, base: int, len: int, from: int)
    requires
        0 <= from,
        forall|i: int| 0 <= i < regions.len() ==> region_within(#[trigger] regions[i], base, len),
    ensures
        first_region_outside(regions, base, len, from) is None,
    decreases regions.len() - from,
{
    if from < regions.len() {
        lemma_all_regions_within(regions, base, len, from + 1);
    }
}

/// Where every replacement is inside, none is found outside.
proof fn lemma_all_patches_within(patches: Seq<Patch>, base: int, len: int, from: int)
    requires
        0 <= from,
        forall|i: int| 0 <= i < patches.len() ==> patch_within(#[trigger] patches[i], base, len),
    ensures
        first_patch_outside(patches, base, len, from) is None,
    decreases patches.len() - from,
{
    if from < patches.len() {
        lemma_all_patches_within(patches, base, len, from + 1);
    }
}

/// Looks for the first range, regions before replacements, that does not lie
/// inside the `len` bytes that start at `base`.
pub fn find_outside(found: &Found, base: usize, len: usize) -> (outside: Option<Region>)
    ensures
        outside == first_outside(found@, base as int, len as int),
{
    let mut i: usize = 0;
    while i < found.regions.len()
        invariant
            i <= found.regions@.len(),
            first_region_outside(found@.regions, base as int, len as int, 0)
                == first_region_outside(found@.regions, base as int, len as int, i as int),
        decreases found.regions@.len() - i,
    {
        let region = found.regions[i];
        if region.offset < base || region.offset - base > len || region.length > len - (
        region.offset - base) {
            return Some(region);
        }
        i += 1;
    }
    let mut j: usize = 0;
    while j < found.replacements.len()
        invariant
            j <= found.replacements@.len(),
            found@.replacements.len() == found.replacements@.len(),
            first_region_outside(found@.regions, base as int, len as int, 0) is None,
            first_patch_outside(found@.replacements, base as int, len as int, 0)
                == first_patch_outside(found@.replacements, base as int, len as int, j as int),
        decreases found.replacements@.len() - j,
    {
        let offset = found.replacements[j].offset;
        let length = found.replacements[j].data.len();
        assert(found@.replacements[j as int] == found.replacements@[j as int]@);
        if offset < base || offset - base > len || length > len - (offset - base) {
            return Some(Region { offset, length });
        }
        j += 1;
    }
    None
}

/// Tells whether two byte strings are the same.
pub fn same_bytes(a: &[u8], b: &[u8]) -> (same: bool)
    ensures
        same == (a@ == b@),
{
    if a.len() != b.len() {
        return false;
    }
    let mut i: usize = 0;
    while i < a.len()
        invariant
            a@.len() == b@.len(),
            i <= a@.len(),
            forall|k: int| 0 <= k < i ==> a@[k] == b@[k],
        decreases a@.len() - i,
    {
        if a[i] != b[i] {
            return false;
        }
        i += 1;
    }
    assert(a@ =~= b@);
    true
}

/// The name prefixes of the sections that hold file paths: `.rodata`,
/// `.debug_line` and `.debug_str`.
pub open spec fn standard_prefixes() -> Seq<Seq<u8>> {
    seq![
        seq![0x2eu8, 0x72u8, 0x6fu8, 0x64u8, 0x61u8, 0x74u8, 0x61u8],
        seq![
            0x2eu8,
            0x64u8,
            0x65u8,
            0x62u8,
            0x75u8,
            0x67u8,
            0x5fu8,
            0x6cu8,
            0x69u8,
            0x6eu8,
            0x65u8,
        ],
        seq![0x2eu8, 0x64u8, 0x65u8, 0x62u8, 0x75u8, 0x67u8, 0x5fu8, 0x73u8, 0x74u8, 0x72u8],
    ]
}

/// Some prefix of the list starts `name`.
pub open spec fn any_prefix_of(prefixes: Seq<Seq<u8>>, name: Seq<u8>) -> bool {
    exists|i: int| 0 <= i < prefixes.len() && has_prefix(name, #[trigger] prefixes[i])
}

/// An ordered list of section-name prefixes. A section is a candidate for
/// substitution when its name starts with any of them.
pub struct PrefixSet {
    prefixes: Vec<Vec<u8>>,
}

impl View for PrefixSet {
    type V = Seq<Seq<u8>>;

    closed spec fn view(&self) -> Seq<Seq<u8>> {
        Seq::new(self.prefixes@.len(), |i: int| self.prefixes@[i]@)
    }
}

impl PrefixSet {
    /// The set of the given prefixes, in their order.
    pub fn new(prefixes: Vec<Vec<u8>>) -> (set: PrefixSet)
        ensures
            set@.len() == prefixes@.len(),
            forall|i: int| 0 <= i < prefixes@.len() ==> set@[i] == prefixes@[i]@,
    {
        PrefixSet { prefixes }
    }

    /// The set `.rodata`, `.debug_line`, `.debug_str`.
    pub fn standard() -> (set: PrefixSet)
        ensures
            set@ == standard_prefixes(),
    {
        let rodata: [u8; 7] = [0x2e, 0x72, 0x6f, 0x64, 0x61, 0x74, 0x61];
        let debug_line: [u8; 11] = [
            0x2e,
            0x64,
            0x65,
            0x62,
            0x75,
            0x67,
            0x5f,
            0x6c,
            0x69,
            0x6e,
            0x65,
        ];
        let debug_str: [u8; 10] = [0x2e, 0x64, 0x65, 0x62, 0x75, 0x67, 0x5f, 0x73, 0x74, 0x72];
        let mut prefixes: Vec<Vec<u8>> = Vec::new();
        prefixes.push(slice_to_vec(&rodata));
        prefixes.push(slice_to_vec(&debug_line));
        prefixes.push(slice_to_vec(&debug_str));
        let set = PrefixSet { prefixes };
        proof {
            assert(rodata@ =~= standard_prefixes()[0]);
            assert(debug_line@ =~= standard_prefixes()[1]);
            assert(debug_str@ =~= standard_prefixes()[2]);
            assert(set@ =~= standard_prefixes());
        }
        set
    }

    /// Tells whether `name` starts with any prefix of the set.
    pub fn matches(&self, name: &[u8]) -> (found: bool)
        ensures
            found == any_prefix_of(self@, name@),
    {
        let mut i: usize = 0;
        while i < self.prefixes.len()
            invariant
                i <= self.prefixes@.len(),
                self@.len() == self.prefixes@.len(),
                forall|k: int| 0 <= k < i ==> !has_prefix(name@, #[trigger] self@[k]),
            decreases self.prefixes@.len() - i,
        {
            if starts_with(name, self.prefixes[i].as_slice()) {
                assert(has_prefix(name@, self@[i as int]));
                return true;
            }
            i += 1;
        }
        false
    }
}

/// The map that a list of insertions builds: a later insertion under a name
/// takes the place of an earlier one.
pub open spec fn map_of(entries: Seq<(Seq<u8>, Seq<u8>)>) -> Map<Seq<u8>, Seq<u8>>
    decreases entries.len(),
{
    if entries.len() == 0 {
        Map::empty()
    } else {
        map_of(entries.drop_last()).insert(entries.last().0, entries.last().1)
    }
}

/// The keys of the map that a list of insertions builds are the names
/// inserted.
proof fn lemma_map_of_keys(entries: Seq<(Seq<u8>, Seq<u8>)>, name: Seq<u8>)
    ensures
        map_of(entries).contains_key(name) <==> exists|i: int|
            0 <= i < entries.len() && entries[i].0 == name,
    decreases entries.len(),
{
    if entries.len() > 0 {
        let before = entries.drop_last();
        lemma_map_of_keys(before, name);
        if exists|i: int| 0 <= i < before.len() && before[i].0 == name {
            let i = choose|i: int| 0 <= i < before.len() && before[i].0 == name;
            assert(entries[i].0 == name);
        }
        if exists|i: int| 0 <= i < entries.len() && entries[i].0 == name {
            let i = choose|i: int| 0 <= i < entries.len() && entries[i].0 == name;
            if i < before.len() {
                assert(before[i].0 == name);
            } else {
                assert(entries.last().0 == name);
            }
        }
    }
}

/// The sections to replace outright: from a section's name to the bytes that
/// are to stand in its place. A name occurs once.
pub struct FullReplaceMap {
    entries: Vec<(Vec<u8>, Vec<u8>)>,
}

impl View for FullReplaceMap {
    type V = Map<Seq<u8>, Seq<u8>>;

    closed spec fn view(&self) -> Map<Seq<u8>, Seq<u8>> {
        map_of(self.entry_views())
    }
}

impl FullReplaceMap {
    spec fn entry_views(&self) -> Seq<(Seq<u8>, Seq<u8>)> {
        Seq::new(self.entries@.len(), |i: int| (self.entries@[i].0@, self.entries@[i].1@))
    }

    /// The names under which something was put, in the order of putting; a
    /// name may stand there more than once.
    pub closed spec fn names(&self) -> Seq<Seq<u8>> {
        Seq::new(self.entries@.len(), |i: int| self.entries@[i].0@)
    }

    /// The map holds exactly the names that were put.
    pub proof fn lemma_names(&self)
        ensures
            forall|name: Seq<u8>| self@.contains_key(name) <==> self.names().contains(name),
    {
        assert forall|name: Seq<u8>| self@.contains_key(name) <==> self.names().contains(
            name,
        ) by {
            lemma_map_of_keys(self.entry_views(), name);
            if self.names().contains(name) {
                let i = choose|i: int| 0 <= i < self.names().len() && self.names()[i] == name;
                assert(self.entry_views()[i].0 == name);
            }
            if exists|i: int| 0 <= i < self.entry_views().len() && self.entry_views()[i].0 == name {
                let i = choose|i: int|
                    0 <= i < self.entry_views().len() && self.entry_views()[i].0 == name;
                assert(self.names()[i] == name);
            }
        }
    }

    /// How many names were put.
    pub fn count(&self) -> (n: usize)
        ensures
            n == self.names().len(),
    {
        self.entries.len()
    }

    /// The `i`-th name that was put.
    pub fn name(&self, i: usize) -> (name: &[u8])
        requires
            i < self.names().len(),
        ensures
            name@ == self.names()[i as int],
    {
        self.entries[i].0.as_slice()
    }

    /// The map without any name: it holds nothing, and nothing was put.
    pub fn new() -> (map: FullReplaceMap)
        ensures
            map@ == Map::<Seq<u8>, Seq<u8>>::empty(),
            map.names() == Seq::<Seq<u8>>::empty(),
    {
        let map = FullReplaceMap { entries: Vec::new() };
        assert(map.entry_views() =~= Seq::empty());
        assert(map.names() =~= Seq::empty());
        map
    }

    /// Puts `data` under `name`, in place of what stood there, and notes the
    /// name as the last one put.
    pub fn insert(&mut self, name: Vec<u8>, data: Vec<u8>)
        ensures
            final(self)@ == old(self)@.insert(name@, data@),
            final(self).names() == old(self).names().push(name@),
    {
        let ghost before = self.entry_views();
        self.entries.push((name, data));
        proof {
            let after = self.entry_views();
            assert(after.drop_last() =~= before);
            assert(after.last() == (name@, data@));
            assert(self.names() =~= old(self).names().push(name@));
        }
    }

    /// Tells whether the map holds no name.
    pub fn is_empty(&self) -> (empty: bool)
        ensures
            empty == (self@ == Map::<Seq<u8>, Seq<u8>>::empty()),
    {
        let empty = self.entries.len() == 0;
        proof {
            let views = self.entry_views();
            if !empty {
                assert(self@.contains_key(views.last().0));
                assert(!Map::<Seq<u8>, Seq<u8>>::empty().contains_key(views.last().0));
            }
        }
        empty
    }

    /// The bytes that stand under `name`, if the map holds it.
    pub fn get(&self, name: &[u8]) -> (found: Option<&Vec<u8>>)
        ensures
            match found {
                Some(data) => self@.contains_key(name@) && self@[name@] == data@,
                None => !self@.contains_key(name@),
            },
    {
        let ghost views = self.entry_views();
        let mut i: usize = self.entries.len();
        assert(views.subrange(0, i as int) =~= views);
        while i > 0
            invariant
                i <= self.entries@.len(),
                views == self.entry_views(),
                map_of(views).contains_key(name@) == map_of(views.subrange(0, i as int)).contains_key(
                    name@,
                ),
                map_of(views).contains_key(name@) ==> map_of(views)[name@] == map_of(
                    views.subrange(0, i as int),
                )[name@],
            decreases i,
        {
            i -= 1;
            proof {
                let upto = views.subrange(0, i + 1);
                assert(upto.drop_last() =~= views.subrange(0, i as int));
                assert(upto.last() == views[i as int]);
            }
            if same_bytes(self.entries[i].0.as_slice(), name) {
                return Some(&self.entries[i].1);
            }
        }
        proof {
            assert(views.subrange(0, 0) =~= Seq::empty());
        }
        None
    }
}

} // verus!
