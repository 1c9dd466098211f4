//! The substitution engine: overwriting a byte range, the left-to-right
//! scan-and-replace over one slice, and the chunked pass with boundary
//! reconciliation over a whole region.

use crate::pattern::PatternPair;
use crate::search::{
    first_match, has_match, lemma_first_match_exists, lemma_first_match_unique, matches_at,
};
use rayon::iter::ParallelIterator;
use rayon::slice::ParallelSliceMut;
use vstd::prelude::*;
use vstd::slice::slice_subrange;

verus! {

/// `data` with `bytes` written over the range that starts at `at`.
pub open spec fn overwritten(data: Seq<u8>, at: int, bytes: Seq<u8>) -> Seq<u8> {
    data.subrange(0, at) + bytes + data.subrange(at + bytes.len(), data.len() as int)
}

/// What a single left-to-right pass makes of `data`: everything before the
/// leftmost occurrence of `src` stays, `dst` stands in place of that
/// occurrence, and the bytes after it are treated the same way. An empty
/// `src` replaces nothing.
pub open spec fn replaced(data: Seq<u8>, src: Seq<u8>, dst: Seq<u8>) -> Seq<u8>
    decreases data.len(),
{
    if src.len() > 0 && has_match(data, src) {
        let at = first_match(data, src);
        proof {
            lemma_first_match_exists(data, src);
        }
        data.subrange(0, at) + dst + replaced(
            data.subrange(at + src.len(), data.len() as int),
            src,
            dst,
        )
    } else {
        data
    }
}

/// The smaller of two integers.
pub open spec fn min_int(a: int, b: int) -> int {
    if a <= b {
        a
    } else {
        b
    }
}

/// `data` after a pass over the window `[from, to)` alone.
pub open spec fn window_replaced(
    data: Seq<u8>,
    src: Seq<u8>,
    dst: Seq<u8>,
    from: int,
    to: int,
) -> Seq<u8> {
    data.subrange(0, from) + replaced(data.subrange(from, to), src, dst) + data.subrange(
        to,
        data.len() as int,
    )
}

/// A pass over the window `[from, to)` of `data` meets an occurrence.
pub open spec fn window_hit(data: Seq<u8>, src: Seq<u8>, from: int, to: int) -> bool {
    src.len() > 0 && has_match(data.subrange(from, to), src)
}

/// `data` after each chunk of `size` bytes from index `at` on has had a pass
/// of its own; the last chunk may be shorter.
pub open spec fn chunks_replaced(
    data: Seq<u8>,
    src: Seq<u8>,
    dst: Seq<u8>,
    size: int,
    at: int,
) -> Seq<u8>
    decreases data.len() - at,
    when size > 0 && at >= 0 && src.len() == dst.len()
{
    if at >= data.len() {
        data
    } else {
        let to = min_int(at + size, data.len() as int);
        proof {
            lemma_window_len(data, src, dst, at, to);
        }
        chunks_replaced(window_replaced(data, src, dst, at, to), src, dst, size, to)
    }
}

/// For each chunk of `size` bytes from index `at` on, whether `src` occurs
/// inside it.
pub open spec fn chunk_hits(data: Seq<u8>, src: Seq<u8>, size: int, at: int) -> Seq<bool>
    decreases data.len() - at,
    when size > 0 && at >= 0
{
    if at >= data.len() {
        Seq::empty()
    } else {
        let to = min_int(at + size, data.len() as int);
        seq![window_hit(data, src, at, to)] + chunk_hits(data, src, size, to)
    }
}

/// `data` after the window around each chunk boundary from `at` on has had a
/// pass, one after the other. The boundaries lie `size` apart, and a window
/// reaches one pattern length to either side of its boundary.
pub open spec fn boundaries_reconciled(
    data: Seq<u8>,
    src: Seq<u8>,
    dst: Seq<u8>,
    size: int,
    at: int,
) -> Seq<u8>
    decreases data.len() - at,
    when size > 0 && at >= src.len() && src.len() == dst.len()
{
    if at >= data.len() {
        data
    } else {
        let to = min_int(at + src.len(), data.len() as int);
        proof {
            lemma_window_len(data, src, dst, at - src.len(), to);
        }
        boundaries_reconciled(
            window_replaced(data, src, dst, at - src.len(), to),
            src,
            dst,
            size,
            min_int(at + size, data.len() as int),
        )
    }
}

/// Some window of those that `boundaries_reconciled` passes over held an
/// occurrence when its turn came.
pub open spec fn boundary_hit(data: Seq<u8>, src: Seq<u8>, dst: Seq<u8>, size: int, at: int) -> bool
    decreases data.len() - at,
    when size > 0 && at >= src.len() && src.len() == dst.len()
{
    if at >= data.len() {
        false
    } else {
        let to = min_int(at + src.len(), data.len() as int);
        proof {
            lemma_window_len(data, src, dst, at - src.len(), to);
        }
        window_hit(data, src, at - src.len(), to) || boundary_hit(
            window_replaced(data, src, dst, at - src.len(), to),
            src,
            dst,
            size,
            min_int(at + size, data.len() as int),
        )
    }
}

/// The chunk size for a pattern of length `pattern_len`: ten pattern lengths,
/// or the requested minimum where that is more.
pub open spec fn chunk_size_for(pattern_len: int, min_chunk_size: int) -> int {
    if 10 * pattern_len >= min_chunk_size {
        10 * pattern_len
    } else {
        min_chunk_size
    }
}

/// What the engine makes of `data` with chunks of `size` bytes: a pass over
/// each chunk, then a pass over the window around each chunk boundary.
pub open spec fn engine_output(data: Seq<u8>, src: Seq<u8>, dst: Seq<u8>, size: int) -> Seq<u8> {
    if src.len() == 0 {
        data
    } else {
        boundaries_reconciled(chunks_replaced(data, src, dst, size, 0), src, dst, size, size)
    }
}

/// Whether any pass of the engine meets an occurrence.
pub open spec fn engine_hit(data: Seq<u8>, src: Seq<u8>, dst: Seq<u8>, size: int) -> bool {
    src.len() > 0 && (chunk_hits(data, src, size, 0).contains(true) || boundary_hit(
        chunks_replaced(data, src, dst, size, 0),
        src,
        dst,
        size,
        size,
    ))
}

/// Writes `bytes` over `data[at..at + bytes.len()]` and leaves every other
/// byte as it was.
pub fn overwrite(data: &mut [u8], at: usize, bytes: &[u8])
    requires
        at + bytes@.len() <= old(data)@.len(),
    ensures
        final(data)@ == overwritten(old(data)@, at as int, bytes@),
        final(data)@.len() == old(data)@.len(),
{
    let n = bytes.len();
    let total = data.len();
    let mut j: usize = 0;
    while j < n
        invariant
            n == bytes@.len(),
            total == data@.len(),
            j <= n,
            at + n <= data@.len(),
            data@.len() == old(data)@.len(),
            data@ == overwritten(old(data)@, at as int, bytes@.subrange(0, j as int)),
        decreases n - j,
    {
        data[at + j] = bytes[j];
        assert(data@ =~= overwritten(old(data)@, at as int, bytes@.subrange(0, j + 1)));
        j += 1;
    }
    assert(bytes@.subrange(0, n as int) =~= bytes@);
}

/// Scans `data` from left to right and writes the destination over every
/// occurrence of the source that the scan meets, resuming behind each one.
/// Tells whether it met any.
pub fn replace_bytes(data: &mut [u8], pattern: &PatternPair) -> (hit: bool)
    ensures
        final(data)@ == replaced(
            old(data)@,
            pattern.source_bytes(),
            pattern.destination_bytes(),
        ),
        final(data)@.len() == old(data)@.len(),
        hit == (pattern.source_bytes().len() > 0 && has_match(
            old(data)@,
            pattern.source_bytes(),
        )),
{
    let n = pattern.len();
    let total = data.len();
    let ghost src = pattern.source_bytes();
    let ghost dst = pattern.destination_bytes();
    if n == 0 || total < n {
        return false;
    }
    let mut hit = false;
    let mut i: usize = 0;
    let end = total - n;
    assert(old(data)@.subrange(0, total as int) =~= old(data)@);
    while i <= end
        invariant
            n == src.len(),
            n == dst.len(),
            n > 0,
            src == pattern.source_bytes(),
            dst == pattern.destination_bytes(),
            total == data@.len(),
            total == old(data)@.len(),
            end == total - n,
            i <= total,
            data@.subrange(i as int, total as int) == old(data)@.subrange(i as int, total as int),
            replaced(old(data)@, src, dst) == data@.subrange(0, i as int) + replaced(
                old(data)@.subrange(i as int, total as int),
                src,
                dst,
            ),
            hit ==> has_match(old(data)@, src),
            !hit ==> i == 0,
        decreases total - i,
    {
        let ghost before = data@;
        let ghost hay = data@.subrange(i as int, total as int);
        let found = pattern.find_in(slice_subrange(data, i, total));
        match found {
            Some(pos) => {
                proof {
                    lemma_first_match_unique(hay, src, pos as int);
                    assert(old(data)@.subrange(i + pos, i + pos + n) =~= hay.subrange(
                        pos as int,
                        pos + n,
                    ));
                    assert(matches_at(old(data)@, src, i + pos));
                }
                i += pos;
                overwrite(data, i, pattern.destination());
                i += n;
                hit = true;
                proof {
                    assert(hay.subrange(pos + n, hay.len() as int) =~= old(data)@.subrange(
                        i as int,
                        total as int,
                    ));
                    assert(data@.subrange(0, i as int) =~= before.subrange(0, i - pos - n)
                        + hay.subrange(0, pos as int) + dst);
                    assert(data@.subrange(i as int, total as int) =~= old(data)@.subrange(
                        i as int,
                        total as int,
                    ));
                }
            },
            None => {
                assert(data@ =~= data@.subrange(0, i as int) + hay);
                assert(!hit ==> hay =~= old(data)@);
                return hit;
            },
        }
    }
    proof {
        let rest = old(data)@.subrange(i as int, total as int);
        assert(!has_match(rest, src));
        assert(data@ =~= data@.subrange(0, i as int) + rest);
    }
    hit
}

/// Runs a pass over `data[from..to]` and leaves the bytes around it alone.
pub fn replace_window(data: &mut [u8], from: usize, to: usize, pattern: &PatternPair) -> (hit:
    bool)
    requires
        from <= to <= old(data)@.len(),
    ensures
        final(data)@ == window_replaced(
            old(data)@,
            pattern.source_bytes(),
            pattern.destination_bytes(),
            from as int,
            to as int,
        ),
        final(data)@.len() == old(data)@.len(),
        hit == window_hit(old(data)@, pattern.source_bytes(), from as int, to as int),
{
    let (head, rest) = data.split_at_mut(from);
    let (window, tail) = rest.split_at_mut(to - from);
    let hit = replace_bytes(window, pattern);
    proof {
        assert(old(data)@.subrange(from as int, old(data)@.len() as int).subrange(0, to - from)
            =~= old(data)@.subrange(from as int, to as int));
        assert(old(data)@.subrange(from as int, old(data)@.len() as int).subrange(
            to - from,
            old(data)@.len() - from,
        ) =~= old(data)@.subrange(to as int, old(data)@.len() as int));
    }
    hit
}

/// Hands the chunks of `data` to rayon: `par_chunks_mut`, then `map` with one
/// pass per chunk, then `collect`. Trusted: the chunks are the consecutive
/// ranges of `chunk_size` bytes, the last one shorter where the length is no
/// multiple; each has its pass exactly once, and the flags come back in the
/// order of the chunks.
#[verifier::external_body]
fn replace_in_chunks(data: &mut [u8], pattern: &PatternPair, chunk_size: usize) -> (hits: Vec<
    bool,
>)
    requires
        chunk_size > 0,
    ensures
        final(data)@ == chunks_replaced(
            old(data)@,
            pattern.source_bytes(),
            pattern.destination_bytes(),
            chunk_size as int,
            0,
        ),
        hits@ == chunk_hits(old(data)@, pattern.source_bytes(), chunk_size as int, 0),
{
    data.par_chunks_mut(chunk_size).map(|chunk| replace_bytes(chunk, pattern)).collect()
}

/// Tells whether any flag is set.
pub fn any_set(flags: &Vec<bool>) -> (found: bool)
    ensures
        found == flags@.contains(true),
{
    let mut j: usize = 0;
    while j < flags.len()
        invariant
            j <= flags@.len(),
            forall|k: int| 0 <= k < j ==> !flags@[k],
        decreases flags@.len() - j,
    {
        if flags[j] {
            return true;
        }
        j += 1;
    }
    false
}

/// Rewrites every occurrence of the pattern's source in `data` in place.
/// The region is cut into chunks of `chunk_size_for` bytes, each chunk has a
/// pass of its own, all at once, and then the window around each chunk
/// boundary has a pass, one boundary after the other, which reaches the
/// occurrences that lie across two chunks. Tells whether any pass replaced
/// something. The length of `data` never changes.
pub fn par_replace_bytes(data: &mut [u8], pattern: &PatternPair, min_chunk_size: usize) -> (hit:
    bool)
    ensures
        final(data)@ == engine_output(
            old(data)@,
            pattern.source_bytes(),
            pattern.destination_bytes(),
            chunk_size_for(pattern.source_bytes().len() as int, min_chunk_size as int),
        ),
        final(data)@.len() == old(data)@.len(),
        hit == engine_hit(
            old(data)@,
            pattern.source_bytes(),
            pattern.destination_bytes(),
            chunk_size_for(pattern.source_bytes().len() as int, min_chunk_size as int),
        ),
{
    let n = pattern.len();
    let total = data.len();
    let ghost src = pattern.source_bytes();
    let ghost dst = pattern.destination_bytes();
    if n == 0 {
        return false;
    }
    let size: usize = match n.checked_mul(10) {
        Some(tenfold) => if tenfold >= min_chunk_size {
            tenfold
        } else {
            min_chunk_size
        },
        None => usize::MAX,
    };
    let ghost wanted = chunk_size_for(n as int, min_chunk_size as int);
    assert(size == wanted || (size >= total && wanted >= total));
    let hits = replace_in_chunks(data, pattern, size);
    let mut hit = any_set(&hits);
    let ghost chunked = data@;
    proof {
        lemma_chunks_len(old(data)@, src, dst, size as int, 0);
    }
    let mut i: usize = if size >= total {
        total
    } else {
        size
    };
    while i < total
        invariant
            n == src.len(),
            n == dst.len(),
            n > 0,
            src == pattern.source_bytes(),
            dst == pattern.destination_bytes(),
            size >= n,
            total == data@.len(),
            total == chunked.len(),
            i <= total,
            i < total ==> i >= size,
            boundaries_reconciled(chunked, src, dst, size as int, size as int) == if i < total {
                boundaries_reconciled(data@, src, dst, size as int, i as int)
            } else {
                data@
            },
            (hits@.contains(true) || boundary_hit(chunked, src, dst, size as int, size as int))
                == (hit || (i < total && boundary_hit(data@, src, dst, size as int, i as int))),
        decreases total - i,
    {
        let from = i - n;
        let to = if n >= total - i {
            total
        } else {
            i + n
        };
        let ghost before = data@;
        let ghost at = i as int;
        let window_hit = replace_window(data, from, to, pattern);
        hit = window_hit || hit;
        i = if size >= total - i {
            total
        } else {
            i + size
        };
        proof {
            let after = window_replaced(before, src, dst, at - n, to as int);
            assert(to == min_int(at + n, total as int));
            assert(i == min_int(at + size, total as int));
            assert(data@ == after);
            assert(boundaries_reconciled(before, src, dst, size as int, at)
                == boundaries_reconciled(after, src, dst, size as int, i as int));
            assert(boundary_hit(before, src, dst, size as int, at) == (window_hit
                || boundary_hit(after, src, dst, size as int, i as int)));
            if i >= total {
                assert(boundaries_reconciled(after, src, dst, size as int, i as int) == after);
                assert(!boundary_hit(after, src, dst, size as int, i as int));
            }
        }
    }
    proof {
        if size != wanted {
            lemma_one_chunk(old(data)@, src, dst, size as int);
            lemma_one_chunk(old(data)@, src, dst, wanted);
        }
    }
    hit
}

/// Writing over a range sets that range and nothing else: the bytes of the
/// range are the bytes written, every byte outside it is as it was, and the
/// length is the same.
pub proof fn lemma_overwritten_range_only(data: Seq<u8>, at: int, bytes: Seq<u8>)
    requires
        0 <= at,
        at + bytes.len() <= data.len(),
    ensures
        overwritten(data, at, bytes).len() == data.len(),
        overwritten(data, at, bytes).subrange(at, at + bytes.len()) == bytes,
        forall|j: int|
            0 <= j < data.len() && !(at <= j < at + bytes.len()) ==> overwritten(data, at, bytes)[j]
                == data[j],
{
    assert(overwritten(data, at, bytes).subrange(at, at + bytes.len()) =~= bytes);
}

/// A pass leaves the length alone when source and destination agree on it.
pub proof fn lemma_replaced_len(data: Seq<u8>, src: Seq<u8>, dst: Seq<u8>)
    requires
        src.len() == dst.len(),
    ensures
        replaced(data, src, dst).len() == data.len(),
    decreases data.len(),
{
    if src.len() > 0 && has_match(data, src) {
        lemma_first_match_exists(data, src);
        let at = first_match(data, src);
        lemma_replaced_len(data.subrange(at + src.len(), data.len() as int), src, dst);
    }
}

/// A pass over a window leaves the length alone.
pub proof fn lemma_window_len(data: Seq<u8>, src: Seq<u8>, dst: Seq<u8>, from: int, to: int)
    requires
        src.len() == dst.len(),
        0 <= from <= to <= data.len(),
    ensures
        window_replaced(data, src, dst, from, to).len() == data.len(),
{
    lemma_replaced_len(data.subrange(from, to), src, dst);
}

/// The chunk passes leave the length alone.
pub proof fn lemma_chunks_len(data: Seq<u8>, src: Seq<u8>, dst: Seq<u8>, size: int, at: int)
    requires
        size > 0,
        at >= 0,
        src.len() == dst.len(),
    ensures
        chunks_replaced(data, src, dst, size, at).len() == data.len(),
    decreases data.len() - at,
{
    if at < data.len() {
        let to = min_int(at + size, data.len() as int);
        lemma_window_len(data, src, dst, at, to);
        lemma_chunks_len(window_replaced(data, src, dst, at, to), src, dst, size, to);
    }
}

/// Where one chunk holds the whole of `data`, the engine is a single pass.
pub proof fn lemma_one_chunk(data: Seq<u8>, src: Seq<u8>, dst: Seq<u8>, size: int)
    requires
        size >= data.len(),
        size >= src.len(),
        src.len() == dst.len(),
        src.len() > 0,
    ensures
        engine_output(data, src, dst, size) == replaced(data, src, dst),
        engine_hit(data, src, dst, size) == has_match(data, src),
{
    let len = data.len() as int;
    lemma_replaced_len(data, src, dst);
    if len == 0 {
        assert(!has_match(data, src));
        assert(chunk_hits(data, src, size, 0) =~= Seq::<bool>::empty());
    } else {
        let whole = window_replaced(data, src, dst, 0, len);
        assert(data.subrange(0, len) =~= data);
        assert(whole =~= replaced(data, src, dst));
        assert(chunks_replaced(whole, src, dst, size, len) == whole);
        assert(chunks_replaced(data, src, dst, size, 0) == whole);
        assert(chunk_hits(data, src, size, len) =~= Seq::<bool>::empty());
        let hits = chunk_hits(data, src, size, 0);
        assert(hits =~= seq![window_hit(data, src, 0, len)]);
        assert(hits.contains(true) ==> hits[0]);
        assert(hits[0] ==> hits.contains(true));
    }
}

} // verus!
