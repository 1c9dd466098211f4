//! What holds of the substitution engine as a whole. It reports a hit
//! exactly where the region holds an occurrence. With a destination that
//! cannot run into the source, it leaves no occurrence behind, so that a
//! second run changes nothing. On regions whose occurrences keep apart as
//! well, it does what one pass over the whole region does.

use crate::replace::{
    boundaries_reconciled, boundary_hit, chunk_hits, chunk_size_for, chunks_replaced, engine_hit,
    engine_output, lemma_chunks_len, lemma_replaced_len, min_int, replaced, window_hit,
    window_replaced,
};
use crate::search::{first_match, has_match, lemma_first_match_exists, matches_at};
use vstd::prelude::*;

verus! {

/// No two occurrences of `src` in `data` share a byte.
pub open spec fn occurrences_apart(data: Seq<u8>, src: Seq<u8>) -> bool {
    forall|p: int, q: int|
        matches_at(data, src, p) && matches_at(data, src, q) && p < q ==> p + src.len() <= q
}

/// No end of `dst` is a start of `src`, no start of `dst` is an end of `src`,
/// and the two differ: bytes written as `dst` can never be part of an
/// occurrence of `src`, whatever stands around them.
pub open spec fn destination_clear(src: Seq<u8>, dst: Seq<u8>) -> bool {
    &&& forall|k: int|
        1 <= k <= src.len() ==> #[trigger] src.subrange(0, k) != dst.subrange(
            dst.len() - k,
            dst.len() as int,
        )
    &&& forall|k: int|
        1 <= k <= src.len() ==> #[trigger] src.subrange(src.len() - k, src.len() as int)
            != dst.subrange(0, k)
}

/// Index `j` of `data` lies inside an occurrence of `src`.
pub open spec fn covered(data: Seq<u8>, src: Seq<u8>, j: int) -> bool {
    exists|p: int| matches_at(data, src, p) && p <= j < p + src.len()
}

/// Index `j` lies inside an occurrence of `src` in `data` over which `now`
/// holds `dst`.
pub open spec fn rewritten_at(now: Seq<u8>, data: Seq<u8>, src: Seq<u8>, dst: Seq<u8>, j: int) -> bool {
    exists|p: int| matches_at(data, src, p) && matches_at(now, dst, p) && p <= j < p + src.len()
}

/// `now` is `data` with some of its occurrences of `src` rewritten, whole,
/// and nothing else touched.
pub open spec fn partly_rewritten(now: Seq<u8>, data: Seq<u8>, src: Seq<u8>, dst: Seq<u8>) -> bool {
    &&& now.len() == data.len()
    &&& forall|j: int| 0 <= j < data.len() ==> now[j] == data[j] || rewritten_at(now, data, src, dst, j)
}

/// Occurrences inside a subrange are the occurrences of the whole that fit
/// into it.
pub proof fn lemma_match_in_subrange(data: Seq<u8>, needle: Seq<u8>, from: int, to: int, at: int)
    requires
        0 <= from <= to <= data.len(),
    ensures
        matches_at(data.subrange(from, to), needle, at) <==> (at >= 0 && from + at + needle.len()
            <= to && matches_at(data, needle, from + at)),
{
    let part = data.subrange(from, to);
    if at >= 0 && from + at + needle.len() <= to {
        assert(part.subrange(at, at + needle.len()) =~= data.subrange(
            from + at,
            from + at + needle.len(),
        ));
    }
}

/// Two sequences that agree on a range have the same occurrences inside it.
proof fn lemma_match_by_agreement(a: Seq<u8>, b: Seq<u8>, needle: Seq<u8>, at: int)
    requires
        a.len() == b.len(),
        0 <= at,
        at + needle.len() <= a.len(),
        forall|j: int| at <= j < at + needle.len() ==> a[j] == b[j],
    ensures
        matches_at(a, needle, at) == matches_at(b, needle, at),
{
    assert(a.subrange(at, at + needle.len()) =~= b.subrange(at, at + needle.len()));
}

/// With a clear destination, an occurrence of `src` and an occurrence of
/// `dst` in one sequence never share a byte.
pub proof fn lemma_clear_means_apart(s: Seq<u8>, src: Seq<u8>, dst: Seq<u8>, p: int, q: int)
    requires
        src.len() == dst.len(),
        destination_clear(src, dst),
        matches_at(s, src, p),
        matches_at(s, dst, q),
    ensures
        p + src.len() <= q || q + src.len() <= p,
{
    let n = src.len() as int;
    if !(p + n <= q || q + n <= p) {
        if q <= p {
            let k = q + n - p;
            assert(src.subrange(0, k) =~= s.subrange(p, p + k));
            assert(dst.subrange(n - k, n) =~= s.subrange(p, p + k));
        } else {
            let k = p + n - q;
            assert(src.subrange(n - k, n) =~= s.subrange(q, q + k));
            assert(dst.subrange(0, k) =~= s.subrange(q, q + k));
        }
    }
}

/// One pass over a sequence whose occurrences keep apart rewrites each of
/// them and touches nothing outside them.
pub proof fn lemma_pass_rewrites_all(data: Seq<u8>, src: Seq<u8>, dst: Seq<u8>)
    requires
        src.len() == dst.len(),
        src.len() > 0,
        occurrences_apart(data, src),
    ensures
        replaced(data, src, dst).len() == data.len(),
        forall|p: int| matches_at(data, src, p) ==> matches_at(replaced(data, src, dst), dst, p),
        forall|j: int|
            0 <= j < data.len() ==> replaced(data, src, dst)[j] == data[j] || covered(data, src, j),
    decreases data.len(),
{
    let n = src.len() as int;
    let len = data.len() as int;
    let out = replaced(data, src, dst);
    lemma_replaced_len(data, src, dst);
    if has_match(data, src) {
        lemma_first_match_exists(data, src);
        let at = first_match(data, src);
        let rest = data.subrange(at + n, len);
        let rest_out = replaced(rest, src, dst);
        assert(out == data.subrange(0, at) + dst + rest_out);
        lemma_replaced_len(rest, src, dst);
        assert forall|p: int, q: int|
            matches_at(rest, src, p) && matches_at(rest, src, q) && p < q implies p + n <= q by {
            lemma_match_in_subrange(data, src, at + n, len, p);
            lemma_match_in_subrange(data, src, at + n, len, q);
        }
        lemma_pass_rewrites_all(rest, src, dst);
        assert forall|p: int| matches_at(data, src, p) implies matches_at(out, dst, p) by {
            if p == at {
                assert(out.subrange(at, at + n) =~= dst);
            } else {
                assert(p >= at + n);
                lemma_match_in_subrange(data, src, at + n, len, p - at - n);
                assert(matches_at(rest_out, dst, p - at - n));
                assert(out.subrange(p, p + n) =~= rest_out.subrange(p - at - n, p - at));
            }
        }
        assert forall|j: int| 0 <= j < len implies out[j] == data[j] || covered(data, src, j) by {
            if j < at {
            } else if j < at + n {
                assert(matches_at(data, src, at) && at <= j < at + n);
            } else {
                let jr = j - at - n;
                assert(out[j] == rest_out[jr]);
                assert(data[j] == rest[jr]);
                if rest_out[jr] != rest[jr] {
                    assert(covered(rest, src, jr));
                    let pr = choose|pr: int| matches_at(rest, src, pr) && pr <= jr < pr + n;
                    lemma_match_in_subrange(data, src, at + n, len, pr);
                    assert(matches_at(data, src, at + n + pr) && at + n + pr <= j < at + n + pr + n);
                }
            }
        }
    }
}

/// In a partly rewritten sequence, every occurrence of `src` is one that
/// `data` had from the start and that has not been rewritten.
pub proof fn lemma_occurrence_was_there(
    now: Seq<u8>,
    data: Seq<u8>,
    src: Seq<u8>,
    dst: Seq<u8>,
    q: int,
)
    requires
        src.len() == dst.len(),
        destination_clear(src, dst),
        partly_rewritten(now, data, src, dst),
        matches_at(now, src, q),
    ensures
        matches_at(data, src, q),
        forall|j: int| q <= j < q + src.len() ==> now[j] == data[j],
{
    let n = src.len() as int;
    assert forall|j: int| q <= j < q + n implies now[j] == data[j] by {
        if now[j] != data[j] {
            assert(rewritten_at(now, data, src, dst, j));
            let p = choose|p: int|
                matches_at(data, src, p) && matches_at(now, dst, p) && p <= j < p + n;
            lemma_clear_means_apart(now, src, dst, q, p);
        }
    }
    lemma_match_by_agreement(now, data, src, q);
}

/// In a partly rewritten sequence, each place where `data` holds `src`
/// still holds `src`, or holds `dst`.
pub proof fn lemma_occurrence_src_or_dst(
    now: Seq<u8>,
    data: Seq<u8>,
    src: Seq<u8>,
    dst: Seq<u8>,
    p: int,
)
    requires
        src.len() == dst.len(),
        occurrences_apart(data, src),
        partly_rewritten(now, data, src, dst),
        matches_at(data, src, p),
    ensures
        matches_at(now, src, p) || matches_at(now, dst, p),
{
    let n = src.len() as int;
    if exists|j: int| p <= j < p + n && now[j] != data[j] {
        let j = choose|j: int| p <= j < p + n && now[j] != data[j];
        assert(rewritten_at(now, data, src, dst, j));
        let r = choose|r: int|
            matches_at(data, src, r) && matches_at(now, dst, r) && r <= j < r + n;
        assert(r == p);
    } else {
        lemma_match_by_agreement(now, data, src, p);
    }
}

/// What a pass over one window does to a partly rewritten sequence: the
/// result is partly rewritten again, what was rewritten stays so, and every
/// occurrence in `data` that lies inside the window is rewritten now.
pub proof fn lemma_window_step(
    now: Seq<u8>,
    data: Seq<u8>,
    src: Seq<u8>,
    dst: Seq<u8>,
    from: int,
    to: int,
)
    requires
        src.len() == dst.len(),
        src.len() > 0,
        occurrences_apart(data, src),
        destination_clear(src, dst),
        partly_rewritten(now, data, src, dst),
        0 <= from <= to <= now.len(),
    ensures
        partly_rewritten(window_replaced(now, src, dst, from, to), data, src, dst),
        forall|p: int|
            matches_at(data, src, p) && matches_at(now, dst, p) ==> matches_at(
                window_replaced(now, src, dst, from, to),
                dst,
                p,
            ),
        forall|p: int|
            matches_at(data, src, p) && from <= p && p + src.len() <= to ==> matches_at(
                window_replaced(now, src, dst, from, to),
                dst,
                p,
            ),
{
    let n = src.len() as int;
    let len = now.len() as int;
    let part = now.subrange(from, to);
    let part_out = replaced(part, src, dst);
    let next = window_replaced(now, src, dst, from, to);
    assert forall|p: int, q: int|
        matches_at(part, src, p) && matches_at(part, src, q) && p < q implies p + n <= q by {
        lemma_match_in_subrange(now, src, from, to, p);
        lemma_match_in_subrange(now, src, from, to, q);
        lemma_occurrence_was_there(now, data, src, dst, from + p);
        lemma_occurrence_was_there(now, data, src, dst, from + q);
    }
    lemma_pass_rewrites_all(part, src, dst);
    assert(next.len() == len);
    assert forall|j: int| 0 <= j < len implies next[j] == (if from <= j < to {
        part_out[j - from]
    } else {
        now[j]
    }) by {}
    // a byte that the pass changed lies in an occurrence in `data`,
    // which holds `dst` afterwards
    assert forall|j: int| 0 <= j < len && next[j] != now[j] implies rewritten_at(
        next,
        data,
        src,
        dst,
        j,
    ) by {
        let jr = j - from;
        assert(part[jr] == now[j]);
        assert(covered(part, src, jr));
        let pr = choose|pr: int| matches_at(part, src, pr) && pr <= jr < pr + n;
        lemma_match_in_subrange(now, src, from, to, pr);
        lemma_occurrence_was_there(now, data, src, dst, from + pr);
        assert(matches_at(part_out, dst, pr));
        assert(next.subrange(from + pr, from + pr + n) =~= part_out.subrange(pr, pr + n));
        assert(matches_at(data, src, from + pr) && matches_at(next, dst, from + pr) && from + pr
            <= j < from + pr + n);
    }
    // what held `dst` over an occurrence in `data` still does
    assert forall|p: int| matches_at(data, src, p) && matches_at(now, dst, p) implies matches_at(
        next,
        dst,
        p,
    ) by {
        assert forall|j: int| p <= j < p + n implies next[j] == now[j] by {
            if next[j] != now[j] {
                let jr = j - from;
                assert(part[jr] == now[j]);
                assert(covered(part, src, jr));
                let pr = choose|pr: int| matches_at(part, src, pr) && pr <= jr < pr + n;
                lemma_match_in_subrange(now, src, from, to, pr);
                lemma_clear_means_apart(now, src, dst, from + pr, p);
            }
        }
        lemma_match_by_agreement(next, now, dst, p);
    }
    assert forall|j: int| 0 <= j < len implies next[j] == data[j] || rewritten_at(
        next,
        data,
        src,
        dst,
        j,
    ) by {
        if next[j] == now[j] && now[j] != data[j] {
            assert(rewritten_at(now, data, src, dst, j));
            let p = choose|p: int|
                matches_at(data, src, p) && matches_at(now, dst, p) && p <= j < p + n;
            assert(matches_at(data, src, p) && matches_at(next, dst, p) && p <= j < p + n);
        }
    }
    assert forall|p: int| matches_at(data, src, p) && from <= p && p + n <= to implies matches_at(
        next,
        dst,
        p,
    ) by {
        lemma_occurrence_src_or_dst(now, data, src, dst, p);
        if !matches_at(now, dst, p) {
            lemma_match_in_subrange(now, src, from, to, p - from);
            assert(matches_at(part_out, dst, p - from));
            assert(next.subrange(p, p + n) =~= part_out.subrange(p - from, p - from + n));
        }
    }
}

/// The occurrence at `p` lies inside one of the chunks of `size` bytes that
/// start at `at`.
spec fn in_some_chunk(p: int, n: int, size: int, at: int, len: int) -> bool
    decreases len - at,
    when size > 0 && at >= 0
{
    if at >= len {
        false
    } else {
        let to = min_int(at + size, len);
        (at <= p && p + n <= to) || in_some_chunk(p, n, size, to, len)
    }
}

/// The occurrence at `p` lies inside the window around one of the chunk
/// boundaries from `at` on.
spec fn in_some_window(p: int, n: int, size: int, at: int, len: int) -> bool
    decreases len - at,
    when size > 0 && at >= 0
{
    if at >= len {
        false
    } else {
        (at - n <= p && p + n <= min_int(at + n, len)) || in_some_window(
            p,
            n,
            size,
            min_int(at + size, len),
            len,
        )
    }
}

/// Every occurrence lies inside a chunk or across a chunk boundary.
proof fn lemma_chunk_or_window(p: int, n: int, size: int, at: int, len: int)
    requires
        n > 0,
        size > 0,
        0 <= at <= p,
        p + n <= len,
    ensures
        in_some_chunk(p, n, size, at, len) || in_some_window(
            p,
            n,
            size,
            min_int(at + size, len),
            len,
        ),
    decreases len - at,
{
    let to = min_int(at + size, len);
    if p + n <= to {
    } else if p < to {
    } else {
        lemma_chunk_or_window(p, n, size, to, len);
    }
}

/// The chunk passes on a partly rewritten sequence: the result is partly
/// rewritten, what was rewritten stays so, and every occurrence in `data`
/// that lies inside a chunk is rewritten.
proof fn lemma_chunk_passes(
    now: Seq<u8>,
    data: Seq<u8>,
    src: Seq<u8>,
    dst: Seq<u8>,
    size: int,
    at: int,
)
    requires
        src.len() == dst.len(),
        src.len() > 0,
        occurrences_apart(data, src),
        destination_clear(src, dst),
        partly_rewritten(now, data, src, dst),
        size > 0,
        at >= 0,
    ensures
        partly_rewritten(chunks_replaced(now, src, dst, size, at), data, src, dst),
        forall|p: int|
            matches_at(data, src, p) && matches_at(now, dst, p) ==> matches_at(
                chunks_replaced(now, src, dst, size, at),
                dst,
                p,
            ),
        forall|p: int|
            matches_at(data, src, p) && in_some_chunk(
                p,
                src.len() as int,
                size,
                at,
                data.len() as int,
            ) ==> matches_at(chunks_replaced(now, src, dst, size, at), dst, p),
    decreases now.len() - at,
{
    if at < now.len() {
        let to = min_int(at + size, now.len() as int);
        lemma_window_step(now, data, src, dst, at, to);
        lemma_chunk_passes(window_replaced(now, src, dst, at, to), data, src, dst, size, to);
    }
}

/// The boundary passes on a partly rewritten sequence: as for the chunk
/// passes, with the windows around the boundaries in place of the chunks.
proof fn lemma_boundary_passes(
    now: Seq<u8>,
    data: Seq<u8>,
    src: Seq<u8>,
    dst: Seq<u8>,
    size: int,
    at: int,
)
    requires
        src.len() == dst.len(),
        src.len() > 0,
        occurrences_apart(data, src),
        destination_clear(src, dst),
        partly_rewritten(now, data, src, dst),
        size > 0,
        at >= src.len(),
    ensures
        partly_rewritten(boundaries_reconciled(now, src, dst, size, at), data, src, dst),
        forall|p: int|
            matches_at(data, src, p) && matches_at(now, dst, p) ==> matches_at(
                boundaries_reconciled(now, src, dst, size, at),
                dst,
                p,
            ),
        forall|p: int|
            matches_at(data, src, p) && in_some_window(
                p,
                src.len() as int,
                size,
                at,
                data.len() as int,
            ) ==> matches_at(boundaries_reconciled(now, src, dst, size, at), dst, p),
    decreases now.len() - at,
{
    if at < now.len() {
        let from = at - src.len();
        let to = min_int(at + src.len(), now.len() as int);
        lemma_window_step(now, data, src, dst, from, to);
        lemma_boundary_passes(
            window_replaced(now, src, dst, from, to),
            data,
            src,
            dst,
            size,
            min_int(at + size, now.len() as int),
        );
    }
}

/// A chunk that holds an occurrence sets its flag.
proof fn lemma_chunk_flag_set(data: Seq<u8>, src: Seq<u8>, size: int, at: int, p: int)
    requires
        src.len() > 0,
        size > 0,
        at >= 0,
        matches_at(data, src, p),
        in_some_chunk(p, src.len() as int, size, at, data.len() as int),
    ensures
        chunk_hits(data, src, size, at).contains(true),
    decreases data.len() - at,
{
    let to = min_int(at + size, data.len() as int);
    let hits = chunk_hits(data, src, size, at);
    let later = chunk_hits(data, src, size, to);
    assert(hits == seq![window_hit(data, src, at, to)] + later);
    if at <= p && p + src.len() <= to {
        lemma_match_in_subrange(data, src, at, to, p - at);
        assert(hits[0]);
    } else {
        lemma_chunk_flag_set(data, src, size, to, p);
        let k = choose|k: int| 0 <= k < later.len() && later[k];
        assert(hits[k + 1]);
    }
}

/// A flag is set only where the data holds an occurrence.
proof fn lemma_chunk_flag_means_match(data: Seq<u8>, src: Seq<u8>, size: int, at: int)
    requires
        size > 0,
        at >= 0,
        chunk_hits(data, src, size, at).contains(true),
    ensures
        has_match(data, src),
    decreases data.len() - at,
{
    if at < data.len() {
        let to = min_int(at + size, data.len() as int);
        let hits = chunk_hits(data, src, size, at);
        let later = chunk_hits(data, src, size, to);
        assert(hits == seq![window_hit(data, src, at, to)] + later);
        if window_hit(data, src, at, to) {
            let pr = choose|pr: int| matches_at(data.subrange(at, to), src, pr);
            lemma_match_in_subrange(data, src, at, to, pr);
            assert(matches_at(data, src, at + pr));
        } else {
            let k = choose|k: int| 0 <= k < hits.len() && hits[k];
            assert(later[k - 1]);
            lemma_chunk_flag_means_match(data, src, size, to);
        }
    } else {
        assert(chunk_hits(data, src, size, at) =~= Seq::<bool>::empty());
    }
}

/// Chunks without a flag leave the data alone.
proof fn lemma_no_flag_no_change(data: Seq<u8>, src: Seq<u8>, dst: Seq<u8>, size: int, at: int)
    requires
        src.len() == dst.len(),
        src.len() > 0,
        size > 0,
        at >= 0,
        !chunk_hits(data, src, size, at).contains(true),
    ensures
        chunks_replaced(data, src, dst, size, at) == data,
    decreases data.len() - at,
{
    if at < data.len() {
        let to = min_int(at + size, data.len() as int);
        let hits = chunk_hits(data, src, size, at);
        let later = chunk_hits(data, src, size, to);
        assert(hits == seq![window_hit(data, src, at, to)] + later);
        assert(!hits[0]);
        assert forall|k: int| 0 <= k < later.len() implies !later[k] by {
            assert(hits[k + 1] == later[k]);
        }
        assert(window_replaced(data, src, dst, at, to) =~= data);
        lemma_no_flag_no_change(data, src, dst, size, to);
    }
}

/// An occurrence that lies across a boundary is met by the boundary passes,
/// unless an earlier window has already hit.
proof fn lemma_boundary_meets(now: Seq<u8>, src: Seq<u8>, dst: Seq<u8>, size: int, at: int, p: int)
    requires
        src.len() == dst.len(),
        src.len() > 0,
        size > 0,
        at >= src.len(),
        matches_at(now, src, p),
        in_some_window(p, src.len() as int, size, at, now.len() as int),
    ensures
        boundary_hit(now, src, dst, size, at),
    decreases now.len() - at,
{
    let from = at - src.len();
    let to = min_int(at + src.len(), now.len() as int);
    if from <= p && p + src.len() <= to {
        lemma_match_in_subrange(now, src, from, to, p - from);
    } else if !window_hit(now, src, from, to) {
        assert(window_replaced(now, src, dst, from, to) =~= now);
        lemma_boundary_meets(now, src, dst, size, min_int(at + size, now.len() as int), p);
    }
}

/// A boundary pass hits only where what it works on holds an occurrence:
/// until the first hit, no window has changed a byte.
proof fn lemma_boundary_hit_means_match(
    now: Seq<u8>,
    src: Seq<u8>,
    dst: Seq<u8>,
    size: int,
    at: int,
)
    requires
        src.len() == dst.len(),
        src.len() > 0,
        size > 0,
        at >= src.len(),
        boundary_hit(now, src, dst, size, at),
    ensures
        has_match(now, src),
    decreases now.len() - at,
{
    if at < now.len() {
        let from = at - src.len();
        let to = min_int(at + src.len(), now.len() as int);
        if window_hit(now, src, from, to) {
            let pr = choose|pr: int| matches_at(now.subrange(from, to), src, pr);
            lemma_match_in_subrange(now, src, from, to, pr);
        } else {
            assert(window_replaced(now, src, dst, from, to) =~= now);
            lemma_boundary_hit_means_match(
                now,
                src,
                dst,
                size,
                min_int(at + size, now.len() as int),
            );
        }
    }
}

/// The engine reports a hit exactly where the region holds an occurrence of
/// the source: for every region, every pair of equal length, and every
/// chunk size of at least the pattern length.
pub proof fn lemma_hit_is_occurrence(data: Seq<u8>, src: Seq<u8>, dst: Seq<u8>, size: int)
    requires
        src.len() == dst.len(),
        size >= src.len(),
    ensures
        engine_hit(data, src, dst, size) == (src.len() > 0 && has_match(data, src)),
{
    let n = src.len() as int;
    let len = data.len() as int;
    if n > 0 {
        if chunk_hits(data, src, size, 0).contains(true) {
            lemma_chunk_flag_means_match(data, src, size, 0);
        } else {
            lemma_no_flag_no_change(data, src, dst, size, 0);
            if engine_hit(data, src, dst, size) {
                lemma_boundary_hit_means_match(data, src, dst, size, size);
            }
            if has_match(data, src) {
                let p = choose|p: int| matches_at(data, src, p);
                lemma_chunk_or_window(p, n, size, 0, len);
                if in_some_chunk(p, n, size, 0, len) {
                    lemma_chunk_flag_set(data, src, size, 0, p);
                } else {
                    if size >= len {
                        assert(!in_some_window(p, n, size, len, len));
                    }
                    lemma_boundary_meets(data, src, dst, size, size, p);
                }
            }
        }
    }
}

/// The engine with chunks of `size` bytes, on a region whose occurrences
/// keep apart and with a clear destination, does what one pass over the
/// whole region does: it rewrites every occurrence and nothing else.
pub proof fn lemma_engine_with_chunks(data: Seq<u8>, src: Seq<u8>, dst: Seq<u8>, size: int)
    requires
        src.len() == dst.len(),
        size >= src.len(),
        occurrences_apart(data, src),
        destination_clear(src, dst),
    ensures
        engine_output(data, src, dst, size) == replaced(data, src, dst),
        forall|p: int|
            src.len() > 0 && matches_at(data, src, p) ==> matches_at(
                engine_output(data, src, dst, size),
                dst,
                p,
            ),
        partly_rewritten(engine_output(data, src, dst, size), data, src, dst),
{
    let n = src.len() as int;
    let len = data.len() as int;
    if n > 0 {
        let chunked = chunks_replaced(data, src, dst, size, 0);
        let out = boundaries_reconciled(chunked, src, dst, size, size);
        lemma_chunk_passes(data, data, src, dst, size, 0);
        lemma_boundary_passes(chunked, data, src, dst, size, size);
        lemma_chunks_len(data, src, dst, size, 0);
        assert forall|p: int| matches_at(data, src, p) implies matches_at(out, dst, p) by {
            lemma_chunk_or_window(p, n, size, 0, len);
            if !in_some_chunk(p, n, size, 0, len) {
                if size >= len {
                    assert(!in_some_window(p, n, size, len, len));
                }
                assert(in_some_window(p, n, size, size, len));
            }
        }
        lemma_pass_rewrites_all(data, src, dst);
        let single = replaced(data, src, dst);
        assert forall|j: int| 0 <= j < len implies out[j] == single[j] by {
            if covered(data, src, j) {
                let p = choose|p: int| matches_at(data, src, p) && p <= j < p + n;
                assert(out[j] == out.subrange(p, p + n)[j - p]);
                assert(single[j] == single.subrange(p, p + n)[j - p]);
            } else {
                if out[j] != data[j] {
                    assert(rewritten_at(out, data, src, dst, j));
                }
            }
        }
        assert(out =~= single);
    } else {
        assert(partly_rewritten(data, data, src, dst));
    }
}

/// A pass that writes the source over itself changes nothing.
proof fn lemma_same_pass(data: Seq<u8>, src: Seq<u8>)
    ensures
        replaced(data, src, src) == data,
    decreases data.len(),
{
    if src.len() > 0 && has_match(data, src) {
        lemma_first_match_exists(data, src);
        let at = first_match(data, src);
        let rest = data.subrange(at + src.len(), data.len() as int);
        lemma_same_pass(rest, src);
        assert(data.subrange(0, at) + src + rest =~= data);
    }
}

/// A pass over a window that writes the source over itself changes nothing.
proof fn lemma_same_window(data: Seq<u8>, src: Seq<u8>, from: int, to: int)
    requires
        0 <= from <= to <= data.len(),
    ensures
        window_replaced(data, src, src, from, to) == data,
{
    lemma_same_pass(data.subrange(from, to), src);
    assert(window_replaced(data, src, src, from, to) =~= data);
}

/// The chunk passes change nothing where source and destination are one.
proof fn lemma_same_chunks(data: Seq<u8>, src: Seq<u8>, size: int, at: int)
    requires
        size > 0,
        at >= 0,
    ensures
        chunks_replaced(data, src, src, size, at) == data,
    decreases data.len() - at,
{
    if at < data.len() {
        let to = min_int(at + size, data.len() as int);
        lemma_same_window(data, src, at, to);
        lemma_same_chunks(data, src, size, to);
    }
}

/// The boundary passes change nothing where source and destination are one.
proof fn lemma_same_boundaries(data: Seq<u8>, src: Seq<u8>, size: int, at: int)
    requires
        size > 0,
        at >= src.len(),
    ensures
        boundaries_reconciled(data, src, src, size, at) == data,
    decreases data.len() - at,
{
    if at < data.len() {
        let from = at - src.len();
        let to = min_int(at + src.len(), data.len() as int);
        lemma_same_window(data, src, from, to);
        lemma_same_boundaries(data, src, size, min_int(at + size, data.len() as int));
    }
}

/// With a destination that is the source itself, the engine and the single
/// pass both leave the region as it is.
pub proof fn lemma_same_pattern_changes_nothing(data: Seq<u8>, src: Seq<u8>, size: int)
    requires
        size >= src.len(),
    ensures
        engine_output(data, src, src, size) == data,
        replaced(data, src, src) == data,
{
    lemma_same_pass(data, src);
    if src.len() > 0 {
        lemma_same_chunks(data, src, size, 0);
        lemma_same_boundaries(data, src, size, size);
    }
}

/// The engine agrees with the single left-to-right pass. For every region
/// whose occurrences of the source keep apart, and every pair of equal
/// length whose destination is clear of the source, the chunked passes
/// followed by the boundary passes leave byte for byte what one pass over
/// the whole region leaves, whatever minimum chunk size is asked for; and
/// the engine reports a hit exactly where the region holds an occurrence.
/// The same holds of every region where the destination is the source.
pub proof fn lemma_engine_is_single_pass(
    data: Seq<u8>,
    src: Seq<u8>,
    dst: Seq<u8>,
    min_chunk_size: nat,
)
    requires
        src.len() == dst.len(),
        (occurrences_apart(data, src) && destination_clear(src, dst)) || src == dst,
    ensures
        engine_output(
            data,
            src,
            dst,
            chunk_size_for(src.len() as int, min_chunk_size as int),
        ) == replaced(data, src, dst),
        engine_hit(data, src, dst, chunk_size_for(src.len() as int, min_chunk_size as int)) == (
        src.len() > 0 && has_match(data, src)),
{
    let size = chunk_size_for(src.len() as int, min_chunk_size as int);
    lemma_hit_is_occurrence(data, src, dst, size);
    if src == dst {
        lemma_same_pattern_changes_nothing(data, src, size);
    } else {
        lemma_engine_with_chunks(data, src, dst, size);
    }
}

/// Index `j` lies under a `dst` that `now` holds.
spec fn under_destination(now: Seq<u8>, dst: Seq<u8>, j: int) -> bool {
    exists|r: int| matches_at(now, dst, r) && r <= j < r + dst.len()
}

/// Every byte that a pass changes lies under a destination that it wrote.
proof fn lemma_pass_changes_under_destination(data: Seq<u8>, src: Seq<u8>, dst: Seq<u8>)
    requires
        src.len() == dst.len(),
        src.len() > 0,
    ensures
        replaced(data, src, dst).len() == data.len(),
        forall|j: int|
            0 <= j < data.len() ==> replaced(data, src, dst)[j] == data[j] || under_destination(
                replaced(data, src, dst),
                dst,
                j,
            ),
    decreases data.len(),
{
    let n = src.len() as int;
    let len = data.len() as int;
    let out = replaced(data, src, dst);
    lemma_replaced_len(data, src, dst);
    if has_match(data, src) {
        lemma_first_match_exists(data, src);
        let at = first_match(data, src);
        let rest = data.subrange(at + n, len);
        let rest_out = replaced(rest, src, dst);
        lemma_replaced_len(rest, src, dst);
        lemma_pass_changes_under_destination(rest, src, dst);
        assert(out == data.subrange(0, at) + dst + rest_out);
        assert forall|j: int| 0 <= j < len && out[j] != data[j] implies under_destination(
            out,
            dst,
            j,
        ) by {
            if j < at + n {
                assert(out.subrange(at, at + n) =~= dst);
                assert(matches_at(out, dst, at) && at <= j < at + n);
            } else {
                let jr = j - at - n;
                assert(out[j] == rest_out[jr]);
                assert(data[j] == rest[jr]);
                assert(under_destination(rest_out, dst, jr));
                let r = choose|r: int| matches_at(rest_out, dst, r) && r <= jr < r + n;
                assert(out.subrange(at + n + r, at + n + r + n) =~= rest_out.subrange(r, r + n));
                assert(matches_at(out, dst, at + n + r) && at + n + r <= j < at + n + r + n);
            }
        }
    }
}

/// With a clear destination, a pass leaves no occurrence behind.
pub proof fn lemma_pass_leaves_none(data: Seq<u8>, src: Seq<u8>, dst: Seq<u8>)
    requires
        src.len() == dst.len(),
        src.len() > 0,
        destination_clear(src, dst),
    ensures
        !has_match(replaced(data, src, dst), src),
    decreases data.len(),
{
    let n = src.len() as int;
    let len = data.len() as int;
    let out = replaced(data, src, dst);
    if has_match(data, src) {
        lemma_first_match_exists(data, src);
        let at = first_match(data, src);
        let rest = data.subrange(at + n, len);
        let rest_out = replaced(rest, src, dst);
        lemma_replaced_len(rest, src, dst);
        lemma_pass_leaves_none(rest, src, dst);
        assert(out == data.subrange(0, at) + dst + rest_out);
        assert(out.subrange(at, at + n) =~= dst);
        assert forall|q: int| !matches_at(out, src, q) by {
            if matches_at(out, src, q) {
                if q + n <= at {
                    assert(out.subrange(q, q + n) =~= data.subrange(q, q + n));
                    assert(matches_at(data, src, q));
                } else if q >= at + n {
                    assert(out.subrange(q, q + n) =~= rest_out.subrange(q - at - n, q - at));
                    assert(matches_at(rest_out, src, q - at - n));
                } else {
                    lemma_clear_means_apart(out, src, dst, q, at);
                }
            }
        }
    }
}

/// With a clear destination, a pass over a window only takes occurrences
/// away: each occurrence that is there afterwards was there before, and none
/// is left inside the window.
proof fn lemma_window_only_removes(
    now: Seq<u8>,
    src: Seq<u8>,
    dst: Seq<u8>,
    from: int,
    to: int,
)
    requires
        src.len() == dst.len(),
        src.len() > 0,
        destination_clear(src, dst),
        0 <= from <= to <= now.len(),
    ensures
        window_replaced(now, src, dst, from, to).len() == now.len(),
        forall|q: int|
            matches_at(window_replaced(now, src, dst, from, to), src, q) ==> matches_at(
                now,
                src,
                q,
            ) && !(from <= q && q + src.len() <= to),
{
    let n = src.len() as int;
    let len = now.len() as int;
    let part = now.subrange(from, to);
    let part_out = replaced(part, src, dst);
    let next = window_replaced(now, src, dst, from, to);
    lemma_pass_changes_under_destination(part, src, dst);
    lemma_pass_leaves_none(part, src, dst);
    assert(next.len() == len);
    assert(next.subrange(from, to) =~= part_out);
    assert forall|q: int| matches_at(next, src, q) implies matches_at(now, src, q) && !(from <= q
        && q + n <= to) by {
        assert forall|j: int| q <= j < q + n implies next[j] == now[j] by {
            if next[j] != now[j] {
                let jr = j - from;
                assert(part[jr] == now[j]);
                assert(part_out[jr] == next[j]);
                assert(under_destination(part_out, dst, jr));
                let r = choose|r: int| matches_at(part_out, dst, r) && r <= jr < r + n;
                assert(next.subrange(from + r, from + r + n) =~= part_out.subrange(r, r + n));
                lemma_clear_means_apart(next, src, dst, q, from + r);
            }
        }
        lemma_match_by_agreement(next, now, src, q);
        if from <= q && q + n <= to {
            lemma_match_in_subrange(next, src, from, to, q - from);
            assert(matches_at(part_out, src, q - from));
        }
    }
}

/// With a clear destination, the chunk passes only take occurrences away,
/// and leave none inside a chunk.
proof fn lemma_chunks_only_remove(now: Seq<u8>, src: Seq<u8>, dst: Seq<u8>, size: int, at: int)
    requires
        src.len() == dst.len(),
        src.len() > 0,
        destination_clear(src, dst),
        size > 0,
        at >= 0,
    ensures
        forall|q: int|
            matches_at(chunks_replaced(now, src, dst, size, at), src, q) ==> matches_at(
                now,
                src,
                q,
            ) && !in_some_chunk(q, src.len() as int, size, at, now.len() as int),
    decreases now.len() - at,
{
    if at < now.len() {
        let to = min_int(at + size, now.len() as int);
        lemma_window_only_removes(now, src, dst, at, to);
        lemma_chunks_only_remove(window_replaced(now, src, dst, at, to), src, dst, size, to);
    }
}

/// With a clear destination, the boundary passes only take occurrences
/// away, and leave none inside a window.
proof fn lemma_boundaries_only_remove(
    now: Seq<u8>,
    src: Seq<u8>,
    dst: Seq<u8>,
    size: int,
    at: int,
)
    requires
        src.len() == dst.len(),
        src.len() > 0,
        destination_clear(src, dst),
        size > 0,
        at >= src.len(),
    ensures
        forall|q: int|
            matches_at(boundaries_reconciled(now, src, dst, size, at), src, q) ==> matches_at(
                now,
                src,
                q,
            ) && !in_some_window(q, src.len() as int, size, at, now.len() as int),
    decreases now.len() - at,
{
    if at < now.len() {
        let from = at - src.len();
        let to = min_int(at + src.len(), now.len() as int);
        lemma_window_only_removes(now, src, dst, from, to);
        lemma_boundaries_only_remove(
            window_replaced(now, src, dst, from, to),
            src,
            dst,
            size,
            min_int(at + size, now.len() as int),
        );
    }
}

/// Boundary passes without a hit leave the data alone.
proof fn lemma_no_hit_no_change(now: Seq<u8>, src: Seq<u8>, dst: Seq<u8>, size: int, at: int)
    requires
        src.len() == dst.len(),
        src.len() > 0,
        size > 0,
        at >= src.len(),
        !boundary_hit(now, src, dst, size, at),
    ensures
        boundaries_reconciled(now, src, dst, size, at) == now,
    decreases now.len() - at,
{
    if at < now.len() {
        let from = at - src.len();
        let to = min_int(at + src.len(), now.len() as int);
        assert(window_replaced(now, src, dst, from, to) =~= now);
        lemma_no_hit_no_change(now, src, dst, size, min_int(at + size, now.len() as int));
    }
}

/// After one run no occurrence is left. For every region and every pair of
/// equal length whose destination is clear of the source, what the engine
/// leaves holds the source nowhere.
pub proof fn lemma_run_leaves_no_occurrence(
    data: Seq<u8>,
    src: Seq<u8>,
    dst: Seq<u8>,
    min_chunk_size: nat,
)
    requires
        src.len() == dst.len(),
        src.len() > 0,
        destination_clear(src, dst),
    ensures
        !has_match(
            engine_output(
                data,
                src,
                dst,
                chunk_size_for(src.len() as int, min_chunk_size as int),
            ),
            src,
        ),
{
    let n = src.len() as int;
    let len = data.len() as int;
    let size = chunk_size_for(n, min_chunk_size as int);
    let chunked = chunks_replaced(data, src, dst, size, 0);
    let once = engine_output(data, src, dst, size);
    lemma_chunks_len(data, src, dst, size, 0);
    lemma_chunks_only_remove(data, src, dst, size, 0);
    lemma_boundaries_only_remove(chunked, src, dst, size, size);
    assert forall|q: int| !matches_at(once, src, q) by {
        if matches_at(once, src, q) {
            assert(matches_at(chunked, src, q));
            assert(matches_at(data, src, q));
            lemma_chunk_or_window(q, n, size, 0, len);
            if size >= len {
                assert(!in_some_window(q, n, size, len, len));
            }
        }
    }
}

/// Running the engine twice is running it once. For every region and every
/// pair of equal length whose destination is clear of the source, a second
/// run with the same pair leaves the region as the first run left it, and
/// reports no hit; nor would a single pass find anything to do.
pub proof fn lemma_second_run_changes_nothing(
    data: Seq<u8>,
    src: Seq<u8>,
    dst: Seq<u8>,
    min_chunk_size: nat,
)
    requires
        src.len() == dst.len(),
        destination_clear(src, dst),
    ensures
        ({
            let size = chunk_size_for(src.len() as int, min_chunk_size as int);
            let once = engine_output(data, src, dst, size);
            &&& engine_output(once, src, dst, size) == once
            &&& replaced(once, src, dst) == once
            &&& !engine_hit(once, src, dst, size)
        }),
{
    let size = chunk_size_for(src.len() as int, min_chunk_size as int);
    let once = engine_output(data, src, dst, size);
    if src.len() > 0 {
        lemma_run_leaves_no_occurrence(data, src, dst, min_chunk_size);
        lemma_hit_is_occurrence(once, src, dst, size);
        lemma_no_flag_no_change(once, src, dst, size, 0);
        lemma_no_hit_no_change(once, src, dst, size, size);
    }
}

} // verus!
