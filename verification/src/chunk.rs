//! Cutting a source of bytes into chunks that workers process independently.
use crate::errors::ChunkError;
use crate::lines::{lemma_next_line_start, lemma_next_line_start_monotone, next_line_start, NEWLINE};
use crate::processor::skip_partial_line;
use vstd::prelude::*;
use vstd::string::*;

verus! {

/// Represents a byte range [start, end) within a file
/// that a worker will process.
#[derive(Clone, Copy, Debug)]
pub struct Chunk {
    pub start: u64,
    pub end: u64,
}

/// Where the division of a source of `file_size` bytes into `n` chunks
/// would cut before moving its cuts to line starts: every `file_size / n` bytes.
pub open spec fn raw_boundary(file_size: nat, n: nat, i: nat) -> nat {
    i * (file_size / n)
}

/// Cut `i` of the division of `data` into `n` chunks, moved forward to the
/// next line start.
pub open spec fn moved_cut(data: Seq<u8>, n: nat, i: nat) -> nat {
    next_line_start(data, raw_boundary(data.len(), n, i))
}

/// The boundaries that the first `k` cuts give: 0, then each moved cut
/// `1..k` that lies past the previous boundary and before the end of the
/// source (cuts that land on the same line start, or at the end, collapse).
pub open spec fn kept_cuts(data: Seq<u8>, n: nat, k: nat) -> Seq<nat>
    decreases k,
{
    if k <= 1 {
        seq![0]
    } else {
        let prev = kept_cuts(data, n, (k - 1) as nat);
        let c = moved_cut(data, n, (k - 1) as nat);
        if c > prev.last() && c < data.len() {
            prev.push(c)
        } else {
            prev
        }
    }
}

/// The boundaries of the division of `data` into at most `n` chunks: the
/// kept cuts, then the end of the source.
pub open spec fn division_bounds(data: Seq<u8>, n: nat) -> Seq<nat> {
    kept_cuts(data, n, n).push(data.len())
}

/// `chunks` run between consecutive boundaries of `bounds`.
pub open spec fn between_bounds(chunks: Seq<Chunk>, bounds: Seq<nat>) -> bool {
    &&& chunks.len() + 1 == bounds.len()
    &&& forall|j: int|
        0 <= j < chunks.len() ==> (#[trigger] chunks[j]).start == bounds[j] && chunks[j].end
            == bounds[j + 1]
}

/// `chunks` tile `[0, len)`: the first starts at 0, the last ends at `len`,
/// each ends where the next starts, and each lies within `[0, len]`.
pub open spec fn tiles(chunks: Seq<Chunk>, len: nat) -> bool {
    &&& chunks.len() >= 1
    &&& chunks[0].start == 0
    &&& chunks.last().end == len
    &&& forall|i: int|
        0 <= i < chunks.len() ==> (#[trigger] chunks[i]).start <= chunks[i].end && chunks[i].end
            <= len
    &&& forall|i: int| 0 <= i < chunks.len() - 1 ==> (#[trigger] chunks[i]).end == chunks[i + 1].start
}

/// No chunk is empty.
pub open spec fn non_empty(chunks: Seq<Chunk>) -> bool {
    forall|i: int| 0 <= i < chunks.len() ==> (#[trigger] chunks[i]).start < chunks[i].end
}

/// Every chunk but the last ends just after a newline.
pub open spec fn ends_after_newlines(chunks: Seq<Chunk>, data: Seq<u8>) -> bool {
    forall|i: int|
        0 <= i < chunks.len() - 1 ==> (#[trigger] chunks[i]).end >= 1 && data[chunks[i].end - 1]
            == NEWLINE
}

proof fn lemma_chunk_bounds(file_size: nat, n: nat, i: nat)
    requires
        1 <= n <= file_size,
        i <= n,
    ensures
        i * (file_size / n) <= file_size,
        file_size / n >= 1,
        i < n ==> i * (file_size / n) + (file_size / n) <= file_size,
{
    let cs = file_size / n;
    assert(cs * n <= file_size) by (nonlinear_arith)
        requires
            cs == file_size / n,
            n >= 1,
    ;
    assert(cs >= 1) by (nonlinear_arith)
        requires
            cs == file_size / n,
            1 <= n <= file_size,
    ;
    assert(i * cs <= n * cs) by (nonlinear_arith)
        requires
            i <= n,
    ;
    if i < n {
        assert(i * cs + cs <= n * cs) by (nonlinear_arith)
            requires
                i < n,
        ;
    }
}

/// The kept cuts start at 0, increase strictly, stay before the end of the
/// source, number at most `k`, and all but the first follow a newline.
proof fn lemma_kept_cuts(data: Seq<u8>, n: nat, k: nat)
    requires
        1 <= n <= data.len(),
        1 <= k <= n,
    ensures
        kept_cuts(data, n, k).len() >= 1,
        kept_cuts(data, n, k).len() <= k,
        kept_cuts(data, n, k)[0] == 0,
        forall|j: int|
            0 <= j < kept_cuts(data, n, k).len() ==> #[trigger] kept_cuts(data, n, k)[j]
                < data.len(),
        forall|j: int|
            0 <= j < kept_cuts(data, n, k).len() - 1 ==> #[trigger] kept_cuts(data, n, k)[j]
                < kept_cuts(data, n, k)[j + 1],
        forall|j: int|
            1 <= j < kept_cuts(data, n, k).len() ==> data[#[trigger] kept_cuts(data, n, k)[j] - 1]
                == NEWLINE,
    decreases k,
{
    if k > 1 {
        lemma_kept_cuts(data, n, (k - 1) as nat);
        let i = (k - 1) as nat;
        lemma_chunk_bounds(data.len(), n, i);
        assert(i * (data.len() / n) >= 1) by (nonlinear_arith)
            requires
                i >= 1,
                data.len() / n >= 1,
        ;
        lemma_next_line_start(data, raw_boundary(data.len(), n, i));
    }
}

/// The chunks start exactly at 0 and at the cuts `i * (len / n)`
/// (`1 <= i < n`), each moved forward to the next line start, that fall
/// strictly inside the source.
pub open spec fn starts_are_cuts(chunks: Seq<Chunk>, data: Seq<u8>, n: nat) -> bool {
    &&& forall|i: nat|
        1 <= i < n && next_line_start(data, #[trigger] raw_boundary(data.len(), n, i))
            < data.len() ==> exists|j: int|
            0 <= j < chunks.len() && chunks[j].start == next_line_start(
                data,
                raw_boundary(data.len(), n, i),
            )
    &&& forall|j: int|
        1 <= j < chunks.len() ==> exists|i: nat|
            1 <= i < n && (#[trigger] chunks[j]).start == next_line_start(
                data,
                #[trigger] raw_boundary(data.len(), n, i),
            )
}

/// Later cuts move to later (or the same) line starts.
proof fn lemma_moved_cut_monotone(data: Seq<u8>, n: nat, i: nat, i2: nat)
    requires
        1 <= n <= data.len(),
        i <= i2 <= n,
    ensures
        moved_cut(data, n, i) <= moved_cut(data, n, i2),
{
    let cs = data.len() / n;
    lemma_chunk_bounds(data.len(), n, i2);
    assert(i * cs <= i2 * cs) by (nonlinear_arith)
        requires
            i <= i2,
    ;
    lemma_next_line_start_monotone(
        data,
        raw_boundary(data.len(), n, i),
        raw_boundary(data.len(), n, i2),
    );
}

/// The kept cuts are exactly 0 and the moved cuts `1..k` that fall before the
/// end of the source.
proof fn lemma_kept_cuts_are_cuts(data: Seq<u8>, n: nat, k: nat)
    requires
        1 <= n <= data.len(),
        1 <= k <= n,
    ensures
        forall|j: int|
            1 <= j < kept_cuts(data, n, k).len() ==> exists|i: nat|
                1 <= i < k && #[trigger] kept_cuts(data, n, k)[j] == moved_cut(data, n, i),
        forall|i: nat|
            1 <= i < k && #[trigger] moved_cut(data, n, i) < data.len() ==> kept_cuts(
                data,
                n,
                k,
            ).contains(moved_cut(data, n, i)),
    decreases k,
{
    if k > 1 {
        let km = (k - 1) as nat;
        lemma_kept_cuts_are_cuts(data, n, km);
        lemma_kept_cuts(data, n, km);
        let prev = kept_cuts(data, n, km);
        let c = moved_cut(data, n, km);
        let cur = kept_cuts(data, n, k);
        assert forall|j: int| 1 <= j < cur.len() implies exists|i: nat|
            1 <= i < k && #[trigger] cur[j] == moved_cut(data, n, i) by {
            if j < prev.len() {
                assert(cur[j] == prev[j]);
                let i = choose|i: nat| 1 <= i < km && #[trigger] prev[j] == moved_cut(data, n, i);
                assert(cur[j] == moved_cut(data, n, i));
            } else {
                assert(cur[j] == c);
            }
        }
        assert forall|i: nat| 1 <= i < k && #[trigger] moved_cut(data, n, i) < data.len() implies cur.contains(
            moved_cut(data, n, i),
        ) by {
            if i < km {
                let j = choose|j: int| 0 <= j < prev.len() && prev[j] == moved_cut(data, n, i);
                if cur == prev {
                } else {
                    assert(cur[j] == prev[j]);
                }
            } else {
                let last = prev.last();
                if cur == prev {
                    // the cut was merged: it is the last boundary so far
                    lemma_chunk_bounds(data.len(), n, km);
                    assert(km * (data.len() / n) >= 1) by (nonlinear_arith)
                        requires
                            km >= 1,
                            data.len() / n >= 1,
                    ;
                    lemma_next_line_start(data, raw_boundary(data.len(), n, km));
                    if prev.len() > 1 {
                        let lj = prev.len() - 1;
                        let i2 = choose|i2: nat| 1 <= i2 < km && #[trigger] prev[lj] == moved_cut(data, n, i2);
                        lemma_moved_cut_monotone(data, n, i2, km);
                    }
                    assert(c == last);
                    assert(cur[prev.len() - 1] == c);
                } else {
                    assert(cur[cur.len() - 1] == c);
                }
            }
        }
    }
}

/// The chunks between the boundaries of a division tile the source, are not
/// empty, and all but the last end just after a newline.
proof fn lemma_division_chunks(chunks: Seq<Chunk>, data: Seq<u8>, n: nat)
    requires
        1 <= n <= data.len(),
        between_bounds(chunks, division_bounds(data, n)),
    ensures
        1 <= chunks.len() <= n,
        tiles(chunks, data.len()),
        non_empty(chunks),
        ends_after_newlines(chunks, data),
{
    lemma_kept_cuts(data, n, n);
    let kc = kept_cuts(data, n, n);
    let b = division_bounds(data, n);
    assert forall|j: int| 0 <= j < b.len() - 1 implies #[trigger] b[j] < b[j + 1] by {
        if j + 1 < kc.len() {
            assert(kc[j] < kc[j + 1]);
        }
    }
    assert forall|j: int| 0 <= j < chunks.len() implies (#[trigger] chunks[j]).start < chunks[j].end
        && chunks[j].end <= data.len() by {
        assert(b[j] < b[j + 1]);
        if j + 1 < kc.len() {
            assert(kc[j + 1] < data.len());
        }
    }
    assert forall|j: int| 0 <= j < chunks.len() - 1 implies (#[trigger] chunks[j]).end >= 1
        && data[chunks[j].end - 1] == NEWLINE by {
        assert(chunks[j].end == kc[j + 1]);
        assert(kc[0] < kc[j + 1]);
    }
    assert forall|j: int| 0 <= j < chunks.len() - 1 implies (#[trigger] chunks[j]).end
        == chunks[j + 1].start by {
        assert(chunks[j + 1].start == b[j + 1]);
    }
}

/// The chunks between the boundaries of a division start exactly at 0 and at
/// the moved cuts that fall inside the source.
pub proof fn lemma_division_starts(chunks: Seq<Chunk>, data: Seq<u8>, n: nat)
    requires
        1 <= n <= data.len(),
        between_bounds(chunks, division_bounds(data, n)),
    ensures
        starts_are_cuts(chunks, data, n),
{
    lemma_kept_cuts(data, n, n);
    lemma_kept_cuts_are_cuts(data, n, n);
    let kc = kept_cuts(data, n, n);
    let b = division_bounds(data, n);
    assert forall|j: int| 0 <= j < chunks.len() implies (#[trigger] chunks[j]).start == kc[j] by {
        assert(b[j] == kc[j]);
    }
    assert forall|i: nat|
        1 <= i < n && next_line_start(data, #[trigger] raw_boundary(data.len(), n, i))
            < data.len() implies exists|j: int|
        0 <= j < chunks.len() && chunks[j].start == next_line_start(
            data,
            raw_boundary(data.len(), n, i),
        ) by {
        assert(moved_cut(data, n, i) < data.len());
        let j = choose|j: int| 0 <= j < kc.len() && kc[j] == moved_cut(data, n, i);
        assert(chunks[j].start == kc[j]);
    }
    assert forall|j: int| 1 <= j < chunks.len() implies exists|i: nat|
        1 <= i < n && (#[trigger] chunks[j]).start == next_line_start(
            data,
            #[trigger] raw_boundary(data.len(), n, i),
        ) by {
        assert(chunks[j].start == kc[j]);
        let i = choose|i: nat| 1 <= i < n && #[trigger] kc[j] == moved_cut(data, n, i);
        assert(raw_boundary(data.len(), n, i) == i * (data.len() / n));
    }
}

/// When the `n - 1` moved cuts are all different and all fall inside the
/// source, chunks that start exactly at 0 and at the moved cuts number `n`.
pub proof fn lemma_distinct_cuts_give_n_chunks(chunks: Seq<Chunk>, data: Seq<u8>, n: nat)
    requires
        1 <= n <= data.len(),
        1 <= chunks.len() <= n,
        chunks[0].start == 0,
        starts_are_cuts(chunks, data, n),
        forall|i: nat, i2: nat|
            1 <= i < n && 1 <= i2 < n && i != i2 ==> next_line_start(
                data,
                #[trigger] raw_boundary(data.len(), n, i),
            ) != next_line_start(data, #[trigger] raw_boundary(data.len(), n, i2)),
        forall|i: nat|
            1 <= i < n ==> next_line_start(data, #[trigger] raw_boundary(data.len(), n, i))
                < data.len(),
    ensures
        chunks.len() == n,
{
    let len = data.len();
    let want = Seq::new(
        n,
        |i: int|
            if i == 0 {
                0nat
            } else {
                next_line_start(data, raw_boundary(len, n, i as nat))
            },
    );
    let starts = chunks.map_values(|c: Chunk| c.start as nat);
    assert forall|i: int| 1 <= i < n implies #[trigger] want[i] >= 1 by {
        lemma_chunk_bounds(len, n, i as nat);
        assert(i * (len / n) >= 1) by (nonlinear_arith)
            requires
                i >= 1,
                len / n >= 1,
        ;
        lemma_next_line_start(data, raw_boundary(len, n, i as nat));
    }
    assert(want.no_duplicates()) by {
        assert forall|a: int, b: int| 0 <= a < want.len() && 0 <= b < want.len() && a != b
            implies want[a] != want[b] by {
            if a > 0 && b > 0 {
                assert(raw_boundary(len, n, a as nat) == raw_boundary(len, n, a as nat));
                assert(raw_boundary(len, n, b as nat) == raw_boundary(len, n, b as nat));
            }
        }
    }
    want.unique_seq_to_set();
    assert forall|x: nat| want.to_set().contains(x) implies starts.to_set().contains(x) by {
        let i = choose|i: int| 0 <= i < want.len() && want[i] == x;
        if i == 0 {
            assert(starts[0] == x);
        } else {
            assert(raw_boundary(len, n, i as nat) == raw_boundary(len, n, i as nat));
            let j = choose|j: int|
                0 <= j < chunks.len() && chunks[j].start == next_line_start(
                    data,
                    raw_boundary(len, n, i as nat),
                );
            assert(starts[j] == x);
        }
    }
    vstd::set_lib::lemma_len_subset(want.to_set(), starts.to_set());
    starts.lemma_cardinality_of_set();
}

/// Divides `data` into at most `n` chunks made of whole lines. The source is
/// cut every `data.len() / n` bytes; each cut but the first is moved forward
/// to the next line start, and cuts that land on the same line start, or at
/// the end of the source, are merged. Every chunk is non-empty, and every
/// chunk but the last ends just after a newline.
///
/// Fails when `n` is zero or larger than the source.
pub fn divide_chunks(data: &[u8], n: usize) -> (r: Result<Vec<Chunk>, ChunkError>)
    ensures
        n == 0 ==> (r matches Err(ChunkError::InvalidChunkCount(m))
            && m@ == "number of chunks must be greater than zero"@),
        n > data@.len() ==> (r matches Err(ChunkError::InvalidChunkCount(m)) && (n == 0 || m@
            == "number of chunks must be less than or equal to file size"@)),
        1 <= n <= data@.len() ==> (r matches Ok(chunks) && between_bounds(
            chunks@,
            division_bounds(data@, n as nat),
        ) && 1 <= chunks@.len() <= n && tiles(chunks@, data@.len()) && non_empty(chunks@)
            && ends_after_newlines(chunks@, data@) && starts_are_cuts(chunks@, data@, n as nat)),
{
    if n == 0 {
        return Err(
            ChunkError::InvalidChunkCount(
                String::from_str("number of chunks must be greater than zero"),
            ),
        );
    }
    let file_size: u64 = data.len() as u64;
    let count: u64 = n as u64;
    if count > file_size {
        return Err(
            ChunkError::InvalidChunkCount(
                String::from_str("number of chunks must be less than or equal to file size"),
            ),
        );
    }
    let ghost len = data@.len();
    let chunk_size: u64 = file_size / count;
    let mut chunks: Vec<Chunk> = Vec::new();
    let mut start: u64 = 0;
    let mut raw: u64 = 0;
    let mut i: usize = 1;
    proof {
        lemma_chunk_bounds(len, n as nat, 0);
        assert(0 * chunk_size == 0);
    }
    while i < n
        invariant
            1 <= n <= len == file_size == data@.len(),
            chunk_size == len / (n as nat),
            1 <= i <= n,
            raw == raw_boundary(len, n as nat, (i - 1) as nat),
            raw <= len,
            chunks@.len() + 1 == kept_cuts(data@, n as nat, i as nat).len(),
            start == kept_cuts(data@, n as nat, i as nat).last(),
            forall|j: int|
                0 <= j < chunks@.len() ==> (#[trigger] chunks@[j]).start == kept_cuts(
                    data@,
                    n as nat,
                    i as nat,
                )[j] && chunks@[j].end == kept_cuts(data@, n as nat, i as nat)[j + 1],
        decreases n - i,
    {
        proof {
            lemma_chunk_bounds(len, n as nat, (i - 1) as nat);
            assert(i * chunk_size == (i - 1) * chunk_size + chunk_size) by (nonlinear_arith);
        }
        raw = raw + chunk_size;
        let cut: u64 = skip_partial_line(data, raw);
        let ghost prev = kept_cuts(data@, n as nat, i as nat);
        if cut > start && cut < file_size {
            chunks.push(Chunk { start, end: cut });
            start = cut;
            assert(kept_cuts(data@, n as nat, (i + 1) as nat) == prev.push(cut as nat));
        }
        i = i + 1;
    }
    let ghost kc = kept_cuts(data@, n as nat, n as nat);
    let ghost before = chunks@;
    chunks.push(Chunk { start, end: file_size });
    proof {
        assert(between_bounds(chunks@, division_bounds(data@, n as nat))) by {
            assert forall|j: int| 0 <= j < chunks@.len() implies (#[trigger] chunks@[j]).start
                == division_bounds(data@, n as nat)[j] && chunks@[j].end == division_bounds(
                data@,
                n as nat,
            )[j + 1] by {
                if j + 1 < chunks@.len() {
                    assert(chunks@[j] == before[j]);
                }
            }
        }
        lemma_division_chunks(chunks@, data@, n as nat);
        lemma_division_starts(chunks@, data@, n as nat);
    }
    Ok(chunks)
}

} // verus!
