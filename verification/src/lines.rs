//! Lines of a source of bytes: where each line ends and where the next one
//! starts.
use vstd::prelude::*;

verus! {

/// The byte `\n`.
pub const NEWLINE: u8 = 0x0a;

/// End (exclusive) of the line that contains `pos`: just past the first
/// newline at or after `pos`, or the end of `data` when there is none.
pub open spec fn line_end(data: Seq<u8>, pos: nat) -> nat
    decreases data.len() - pos,
{
    if pos >= data.len() {
        data.len()
    } else if data[pos as int] == NEWLINE {
        pos + 1
    } else {
        line_end(data, pos + 1)
    }
}

/// A position where a line of `data` starts, or the end of `data`.
pub open spec fn is_line_start(data: Seq<u8>, q: nat) -> bool {
    q <= data.len() && (q == 0 || q == data.len() || data[q - 1] == NEWLINE)
}

/// The first line start at or after `pos` (the end of `data` when no line
/// starts there); `pos` itself when it is past the end of `data`.
pub open spec fn next_line_start(data: Seq<u8>, pos: nat) -> nat {
    if pos == 0 || pos >= data.len() || data[pos - 1] == NEWLINE {
        pos
    } else {
        line_end(data, pos)
    }
}

pub proof fn lemma_line_end_bounds(data: Seq<u8>, pos: nat)
    ensures
        pos < data.len() ==> pos < line_end(data, pos) <= data.len(),
        pos >= data.len() ==> line_end(data, pos) == data.len(),
    decreases data.len() - pos,
{
    if pos < data.len() && data[pos as int] != NEWLINE {
        lemma_line_end_bounds(data, pos + 1);
    }
}

/// Every position inside a line has the same line end.
pub proof fn lemma_line_end_same_line(data: Seq<u8>, p: nat, q: nat)
    requires
        p <= q < line_end(data, p),
        p < data.len(),
    ensures
        line_end(data, q) == line_end(data, p),
    decreases q - p,
{
    if q > p {
        assert(data[p as int] != NEWLINE);
        lemma_line_end_same_line(data, p + 1, q);
    }
}

/// A line that ends before the end of the source ends with a newline.
pub proof fn lemma_line_ends_with_newline(data: Seq<u8>, p: nat)
    requires
        p < data.len(),
        line_end(data, p) < data.len(),
    ensures
        data[line_end(data, p) - 1] == NEWLINE,
    decreases data.len() - p,
{
    if data[p as int] != NEWLINE {
        lemma_line_end_bounds(data, p + 1);
        lemma_line_ends_with_newline(data, p + 1);
    }
}

/// A line never runs past a newline.
pub proof fn lemma_line_end_at_most(data: Seq<u8>, p: nat, k: nat)
    requires
        p <= k < data.len(),
        data[k as int] == NEWLINE,
    ensures
        line_end(data, p) <= k + 1,
    decreases k - p,
{
    if p < k && data[p as int] != NEWLINE {
        lemma_line_end_at_most(data, p + 1, k);
    }
}

/// The next line start is a line start at or after `pos`, and no line starts
/// in between.
pub proof fn lemma_next_line_start(data: Seq<u8>, pos: nat)
    requires
        pos <= data.len(),
    ensures
        pos <= next_line_start(data, pos) <= data.len(),
        is_line_start(data, next_line_start(data, pos)),
        forall|q: nat|
            pos <= q < next_line_start(data, pos) ==> !#[trigger] is_line_start(data, q),
{
    let n = next_line_start(data, pos);
    lemma_line_end_bounds(data, pos);
    if n != pos {
        if n < data.len() {
            lemma_line_ends_with_newline(data, pos);
        }
        assert forall|q: nat| pos <= q < n implies !#[trigger] is_line_start(data, q) by {
            if is_line_start(data, q) && q > pos {
                lemma_line_end_at_most(data, pos, (q - 1) as nat);
            }
        }
    }
}

/// Later positions have later (or the same) next line starts.
pub proof fn lemma_next_line_start_monotone(data: Seq<u8>, a: nat, b: nat)
    requires
        a <= b <= data.len(),
    ensures
        next_line_start(data, a) <= next_line_start(data, b),
{
    lemma_next_line_start(data, a);
    lemma_next_line_start(data, b);
    if next_line_start(data, a) > next_line_start(data, b) {
        assert(!is_line_start(data, next_line_start(data, b)));
    }
}

/// End (exclusive) of the line that contains `pos`.
pub fn find_line_end(data: &[u8], pos: usize) -> (r: usize)
    requires
        pos < data@.len(),
    ensures
        r == line_end(data@, pos as nat),
{
    let len: usize = data.len();
    let mut i: usize = pos;
    while i < len && data[i] != NEWLINE
        invariant
            pos <= i <= len == data@.len(),
            line_end(data@, i as nat) == line_end(data@, pos as nat),
        decreases len - i,
    {
        i = i + 1;
    }
    if i < len {
        i + 1
    } else {
        len
    }
}

} // verus!
