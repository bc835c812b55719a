//! Which lines of the source each chunk reads.
//!
//! A worker reads the lines that start in its chunk `[start, end)`: it skips
//! the rest of a line that began before `start` (the previous chunk reads
//! that line), then reads whole lines, each up to and including its newline,
//! as long as the line starts before `end`.
use crate::chunk::{tiles, Chunk};
use crate::lines::{
    find_line_end, is_line_start, lemma_line_end_at_most, lemma_line_end_bounds,
    lemma_line_end_same_line, lemma_line_ends_with_newline, lemma_next_line_start,
    lemma_next_line_start_monotone, line_end, next_line_start, NEWLINE,
};
use vstd::prelude::*;

verus! {

/// The lines, as `(start, end)` spans, read from `pos` on while the reading
/// position is before `end` and before the end of `data`.
pub open spec fn lines_from(data: Seq<u8>, pos: nat, end: nat) -> Seq<(nat, nat)>
    decreases data.len() - pos,
{
    if pos >= end || pos >= data.len() {
        Seq::empty()
    } else {
        proof {
            lemma_line_end_bounds(data, pos);
        }
        seq![(pos, line_end(data, pos))] + lines_from(data, line_end(data, pos), end)
    }
}

/// The lines that start in the chunk `[start, end)`.
pub open spec fn chunk_line_spans(data: Seq<u8>, start: nat, end: nat) -> Seq<(nat, nat)> {
    lines_from(data, next_line_start(data, start), end)
}

/// All lines of `data`.
pub open spec fn all_line_spans(data: Seq<u8>) -> Seq<(nat, nat)> {
    lines_from(data, 0, data.len())
}

/// The bytes of each span.
pub open spec fn span_texts(data: Seq<u8>, spans: Seq<(nat, nat)>) -> Seq<Seq<u8>> {
    spans.map_values(|sp: (nat, nat)| data.subrange(sp.0 as int, sp.1 as int))
}

/// The lines read by each chunk of `chunks`.
pub open spec fn lines_per_chunk(data: Seq<u8>, chunks: Seq<Chunk>) -> Seq<Seq<(nat, nat)>> {
    chunks.map_values(|c: Chunk| chunk_line_spans(data, c.start as nat, c.end as nat))
}

/// The first position reached by reading lines from `p` that is at or after
/// `s` (or past the end of `data`).
spec fn resume(data: Seq<u8>, p: nat, s: nat) -> nat
    decreases data.len() - p,
{
    if p >= s || p >= data.len() {
        p
    } else {
        proof {
            lemma_line_end_bounds(data, p);
        }
        resume(data, line_end(data, p), s)
    }
}

/// Reading lines from `p` while before `e` is reading them while before `s`
/// and then going on from where that stopped.
proof fn lemma_lines_split(data: Seq<u8>, p: nat, s: nat, e: nat)
    requires
        s <= e,
    ensures
        lines_from(data, p, e) == lines_from(data, p, s) + lines_from(data, resume(data, p, s), e),
    decreases data.len() - p,
{
    if p >= s || p >= data.len() {
        assert(lines_from(data, p, s) =~= Seq::<(nat, nat)>::empty());
        assert(lines_from(data, p, e) =~= Seq::<(nat, nat)>::empty() + lines_from(data, p, e));
    } else {
        lemma_line_end_bounds(data, p);
        let le = line_end(data, p);
        lemma_lines_split(data, le, s, e);
        assert(lines_from(data, p, e) =~= seq![(p, le)] + lines_from(data, le, e));
        assert(lines_from(data, p, s) =~= seq![(p, le)] + lines_from(data, le, s));
    }
}

/// Reading lines from before a position `s` inside a line first reaches, at
/// or after `s`, the end of that line.
proof fn lemma_resume_inside_line(data: Seq<u8>, p: nat, s: nat)
    requires
        p < s < data.len(),
        data[s - 1] != NEWLINE,
    ensures
        resume(data, p, s) == line_end(data, s),
    decreases data.len() - p,
{
    lemma_line_end_bounds(data, p);
    let le = line_end(data, p);
    if le < s {
        lemma_resume_inside_line(data, le, s);
    } else {
        assert(resume(data, le, s) == le);
        if le == s {
            lemma_line_ends_with_newline(data, p);
        }
        lemma_line_end_same_line(data, p, s);
    }
}

/// Reading lines from before a line start `q` stops exactly at `q`.
proof fn lemma_resume_at_line_start(data: Seq<u8>, p: nat, q: nat)
    requires
        p <= q,
        is_line_start(data, q),
    ensures
        resume(data, p, q) == q,
    decreases data.len() - p,
{
    if p < q && p < data.len() {
        lemma_line_end_bounds(data, p);
        if q < data.len() {
            lemma_line_end_at_most(data, p, (q - 1) as nat);
        }
        lemma_resume_at_line_start(data, line_end(data, p), q);
    }
}

/// Reading lines from a line start `p` first reaches, at or after `s`, the
/// next line start of `s`.
proof fn lemma_resume_from_line_start(data: Seq<u8>, p: nat, s: nat)
    requires
        p <= s <= data.len(),
        is_line_start(data, p),
    ensures
        resume(data, p, s) == next_line_start(data, s),
{
    if is_line_start(data, s) {
        lemma_resume_at_line_start(data, p, s);
    } else {
        lemma_resume_inside_line(data, p, s);
    }
}

/// Reading lines from where a chunk starting at `a` begins first reaches, at
/// or after a later position `b`, where a chunk starting at `b` begins.
proof fn lemma_resume_from_next(data: Seq<u8>, a: nat, b: nat)
    requires
        a <= b <= data.len(),
    ensures
        resume(data, next_line_start(data, a), b) == next_line_start(data, b),
{
    let p = next_line_start(data, a);
    lemma_next_line_start(data, a);
    lemma_next_line_start(data, b);
    if p <= b {
        lemma_resume_from_line_start(data, p, b);
    } else {
        lemma_next_line_start_monotone(data, a, b);
        if next_line_start(data, b) > p {
            assert(!is_line_start(data, p));
        }
    }
}

/// Two adjacent chunks together read the lines that the chunk covering both
/// reads: each line once, in order.
pub proof fn lemma_adjacent_chunks(data: Seq<u8>, a: nat, b: nat, c: nat)
    requires
        a <= b <= c <= data.len(),
    ensures
        chunk_line_spans(data, a, b) + chunk_line_spans(data, b, c) == chunk_line_spans(
            data,
            a,
            c,
        ),
{
    lemma_lines_split(data, next_line_start(data, a), b, c);
    lemma_resume_from_next(data, a, b);
}

proof fn lemma_tiling_prefix(data: Seq<u8>, chunks: Seq<Chunk>, k: nat)
    requires
        tiles(chunks, data.len()),
        1 <= k <= chunks.len(),
    ensures
        lines_per_chunk(data, chunks).take(k as int).flatten() == chunk_line_spans(
            data,
            0,
            chunks[k - 1].end as nat,
        ),
    decreases k,
{
    let parts = lines_per_chunk(data, chunks);
    let c = chunks[k - 1];
    if k == 1 {
        assert(parts.take(1) =~= seq![parts[0]]);
        parts.take(1).lemma_flatten_one_element();
    } else {
        lemma_tiling_prefix(data, chunks, (k - 1) as nat);
        assert(parts.take(k as int) =~= parts.take(k - 1).push(parts[k - 1]));
        parts.take(k - 1).lemma_flatten_push(parts[k - 1]);
        assert(chunks[k - 2].end == c.start);
        lemma_adjacent_chunks(data, 0, c.start as nat, c.end as nat);
    }
}

/// Chunks that tile the source read every line of the source exactly once,
/// and in order, wherever their boundaries fall.
pub proof fn lemma_tiling_reads_every_line_once(data: Seq<u8>, chunks: Seq<Chunk>)
    requires
        tiles(chunks, data.len()),
    ensures
        lines_per_chunk(data, chunks).flatten() == all_line_spans(data),
{
    let n = chunks.len();
    lemma_tiling_prefix(data, chunks, n);
    assert(lines_per_chunk(data, chunks).take(n as int) =~= lines_per_chunk(data, chunks));
}

/// A chunk reads only whole lines of the source: the lines it reads are a run
/// of consecutive lines of the source, whatever the chunk's bounds.
pub proof fn lemma_chunk_reads_whole_lines(data: Seq<u8>, start: nat, end: nat)
    ensures
        exists|i: int|
            0 <= i && i + chunk_line_spans(data, start, end).len() <= all_line_spans(data).len()
                && #[trigger] all_line_spans(data).subrange(
                i,
                i + chunk_line_spans(data, start, end).len(),
            ) == chunk_line_spans(data, start, end),
{
    let len = data.len();
    let q = next_line_start(data, start);
    let all = all_line_spans(data);
    let mine = chunk_line_spans(data, start, end);
    let w: int = if start > len {
        0
    } else {
        lines_from(data, 0, q).len() as int
    };
    if start > len {
        assert(mine =~= Seq::<(nat, nat)>::empty());
        assert(all.subrange(0, 0) =~= mine);
    } else {
        lemma_next_line_start(data, start);
        lemma_lines_split(data, 0, q, len);
        lemma_resume_at_line_start(data, 0, q);
        let after = lines_from(data, q, len);
        if end <= len {
            lemma_lines_split(data, q, end, len);
            let rest = lines_from(data, resume(data, q, end), len);
            assert(after == mine + rest);
        } else {
            lemma_lines_split(data, q, len, end);
            assert(lines_from(data, resume(data, q, len), end) =~= Seq::<(nat, nat)>::empty())
                by {
                lemma_resume_at_line_start(data, q, len);
            }
            assert(mine =~= after);
        }
        assert(all.subrange(w, w + mine.len()) =~= mine);
    }
    assert(0 <= w && w + mine.len() <= all.len() && all.subrange(w, w + mine.len()) == mine);
}

/// The lines read from `p` on are real lines: each is non-empty, holds no
/// newline but possibly as its last byte, ends with a newline unless it ends
/// the source, and each starts where the previous one ended.
pub proof fn lemma_spans_are_lines(data: Seq<u8>, p: nat, e: nat)
    ensures
        forall|i: int|
            0 <= i < lines_from(data, p, e).len() ==> {
                let (s, t) = #[trigger] lines_from(data, p, e)[i];
                &&& p <= s < t <= data.len()
                &&& s < e
                &&& forall|k: int| s <= k < t - 1 ==> data[k] != NEWLINE
                &&& (t == data.len() || data[t - 1] == NEWLINE)
            },
        forall|i: int|
            0 <= i < lines_from(data, p, e).len() - 1 ==> (#[trigger] lines_from(data, p, e)[i]).1
                == lines_from(data, p, e)[i + 1].0,
        lines_from(data, p, e).len() > 0 ==> lines_from(data, p, e)[0].0 == p,
    decreases data.len() - p,
{
    if p < e && p < data.len() {
        lemma_line_end_bounds(data, p);
        let le = line_end(data, p);
        lemma_spans_are_lines(data, le, e);
        lemma_no_newline_before_line_end(data, p);
        if le < data.len() {
            lemma_line_ends_with_newline(data, p);
        }
        let all = lines_from(data, p, e);
        let rest = lines_from(data, le, e);
        assert(all =~= seq![(p, le)] + rest);
        assert forall|i: int| 0 <= i < all.len() implies {
            let (s, t) = #[trigger] all[i];
            &&& p <= s < t <= data.len()
            &&& s < e
            &&& forall|k: int| s <= k < t - 1 ==> data[k] != NEWLINE
            &&& (t == data.len() || data[t - 1] == NEWLINE)
        } by {
            if i > 0 {
                assert(all[i] == rest[i - 1]);
            }
        }
        assert forall|i: int| 0 <= i < all.len() - 1 implies (#[trigger] all[i]).1 == all[i
            + 1].0 by {
            if i > 0 {
                assert(all[i] == rest[i - 1]);
            }
            assert(all[i + 1] == rest[i]);
        }
    }
}

proof fn lemma_no_newline_before_line_end(data: Seq<u8>, p: nat)
    requires
        p < data.len(),
    ensures
        forall|k: int| p <= k < line_end(data, p) - 1 ==> data[k] != NEWLINE,
    decreases data.len() - p,
{
    if data[p as int] != NEWLINE {
        lemma_line_end_bounds(data, p + 1);
        if p + 1 < data.len() {
            lemma_no_newline_before_line_end(data, p + 1);
        }
    }
}

proof fn lemma_lines_rebuild_suffix(data: Seq<u8>, p: nat)
    requires
        p <= data.len(),
    ensures
        lines_from(data, p, data.len()).map_values(
            |sp: (nat, nat)| data.subrange(sp.0 as int, sp.1 as int),
        ).flatten() == data.subrange(p as int, data.len() as int),
    decreases data.len() - p,
{
    let texts = lines_from(data, p, data.len()).map_values(
        |sp: (nat, nat)| data.subrange(sp.0 as int, sp.1 as int),
    );
    if p == data.len() {
        assert(texts =~= Seq::<Seq<u8>>::empty());
        assert(data.subrange(p as int, p as int) =~= Seq::<u8>::empty());
    } else {
        lemma_line_end_bounds(data, p);
        let le = line_end(data, p);
        lemma_lines_rebuild_suffix(data, le);
        let rest = lines_from(data, le, data.len()).map_values(
            |sp: (nat, nat)| data.subrange(sp.0 as int, sp.1 as int),
        );
        assert(texts =~= seq![data.subrange(p as int, le as int)] + rest);
        assert(texts.first() == data.subrange(p as int, le as int));
        assert(texts.drop_first() =~= rest);
        assert(data.subrange(p as int, le as int) + data.subrange(le as int, data.len() as int)
            =~= data.subrange(p as int, data.len() as int));
    }
}

/// The lines of the source, each taken whole with its newline, give back the
/// source when put end to end.
pub proof fn lemma_lines_rebuild_source(data: Seq<u8>)
    ensures
        all_line_spans(data).map_values(
            |sp: (nat, nat)| data.subrange(sp.0 as int, sp.1 as int),
        ).flatten() == data,
{
    lemma_lines_rebuild_suffix(data, 0);
    assert(data.subrange(0, data.len() as int) =~= data);
}

/// Where a worker whose chunk starts at `pos` begins reading: `pos` itself
/// when a line starts there, else just past the line that `pos` falls in.
pub fn skip_partial_line(data: &[u8], pos: u64) -> (r: u64)
    ensures
        r == next_line_start(data@, pos as nat),
{
    let len: u64 = data.len() as u64;
    if pos != 0 && pos < len && data[(pos - 1) as usize] != NEWLINE {
        find_line_end(data, pos as usize) as u64
    } else {
        pos
    }
}

/// The lines that start in `chunk`, each with its newline: the lines the
/// worker for `chunk` reads from the source `data`.
pub fn chunk_lines<'a>(data: &'a [u8], chunk: Chunk) -> (lines: Vec<&'a [u8]>)
    ensures
        lines@.map_values(|l: &'a [u8]| l@) == span_texts(
            data@,
            chunk_line_spans(data@, chunk.start as nat, chunk.end as nat),
        ),
        lines@.len() == chunk_line_spans(data@, chunk.start as nat, chunk.end as nat).len(),
        forall|i: int|
            0 <= i < lines@.len() ==> (#[trigger] lines@[i])@ == data@.subrange(
                chunk_line_spans(data@, chunk.start as nat, chunk.end as nat)[i].0 as int,
                chunk_line_spans(data@, chunk.start as nat, chunk.end as nat)[i].1 as int,
            ),
{
    let len: usize = data.len();
    let mut lines: Vec<&'a [u8]> = Vec::new();
    let mut pos: u64 = skip_partial_line(data, chunk.start);
    let ghost first = pos as nat;
    assert(lines_from(data@, first, chunk.end as nat) =~= Seq::<(nat, nat)>::empty()
        + lines_from(data@, first, chunk.end as nat));
    while pos < chunk.end && pos < len as u64
        invariant
            len == data@.len(),
            lines@.map_values(|l: &'a [u8]| l@) + span_texts(
                data@,
                lines_from(data@, pos as nat, chunk.end as nat),
            ) == span_texts(data@, lines_from(data@, first, chunk.end as nat)),
        decreases len - pos,
    {
        let start: usize = pos as usize;
        let end: usize = find_line_end(data, start);
        proof {
            lemma_line_end_bounds(data@, pos as nat);
        }
        let ghost before = lines@.map_values(|l: &'a [u8]| l@);
        let ghost rest = lines_from(data@, end as nat, chunk.end as nat);
        assert(lines_from(data@, pos as nat, chunk.end as nat) =~= seq![
            (pos as nat, end as nat),
        ] + rest);
        assert(span_texts(data@, seq![(pos as nat, end as nat)] + rest) =~= seq![
            data@.subrange(start as int, end as int),
        ] + span_texts(data@, rest));
        lines.push(&data[start..end]);
        assert(lines@.map_values(|l: &'a [u8]| l@) =~= before.push(
            data@.subrange(start as int, end as int),
        ));
        pos = end as u64;
    }
    assert(lines_from(data@, pos as nat, chunk.end as nat) =~= Seq::<(nat, nat)>::empty());
    assert(span_texts(data@, Seq::<(nat, nat)>::empty()) =~= Seq::<Seq<u8>>::empty());
    proof {
        let spans = chunk_line_spans(data@, chunk.start as nat, chunk.end as nat);
        let texts = lines@.map_values(|l: &'a [u8]| l@);
        assert(texts.len() == spans.len());
        assert forall|i: int| 0 <= i < lines@.len() implies (#[trigger] lines@[i])@
            == data@.subrange(spans[i].0 as int, spans[i].1 as int) by {
            assert(texts[i] == lines@[i]@);
            assert(span_texts(data@, spans)[i] == data@.subrange(spans[i].0 as int, spans[i].1 as int));
        }
    }
    lines
}

} // verus!
