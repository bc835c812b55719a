use par_csv::chunk::{divide_chunks, Chunk};
use par_csv::line_parser::LineParser;
use par_csv::processor::{chunk_lines, skip_partial_line};

fn whole(data: &[u8]) -> Chunk {
    Chunk { start: 0, end: data.len() as u64 }
}

#[test]
fn lines_keep_their_newline() {
    let data: &[u8] = b"a\nbb\nccc";
    let lines = chunk_lines(data, whole(data));
    assert_eq!(lines, vec![&b"a\n"[..], &b"bb\n"[..], &b"ccc"[..]]);
}

#[test]
fn valid_lines_of_a_chunk_are_parsed() {
    let data: &[u8] = b"
    x,1,2,10,ignored,2024,1,1,x
    x,3,4,20,ignored,2024,1,1,x
    ";
    let lines = chunk_lines(data, whole(data));
    assert_eq!(lines.len(), 4);
    let dates: Vec<_> = lines
        .iter()
        .map(|l| {
            let p = LineParser::new(l).unwrap();
            (p.year(), p.month(), p.day())
        })
        .collect();
    assert_eq!(dates[1], (Some(2024), Some(1), Some(1)));
    assert_eq!(dates[2], (Some(2024), Some(1), Some(1)));
    assert_eq!(dates[0], (None, None, None));
    assert_eq!(dates[3], (None, None, None));
}

#[test]
fn chunk_starting_inside_a_line_skips_it() {
    let data: &[u8] = b"
    x,0,0,10,ignored,2024,1,1,x
    x,0,0,20,ignored,2024,1,1,x
    x,0,0,30,ignored,2024,1,1,x
    ";
    let lines = chunk_lines(data, Chunk { start: 5, end: data.len() as u64 });
    assert_eq!(lines.len(), 3);
    assert_eq!(lines[0], &b"    x,0,0,20,ignored,2024,1,1,x\n"[..]);
    assert_eq!(lines[2], &b"    "[..]);
}

#[test]
fn empty_chunk_reads_nothing() {
    let data: &[u8] = b"x,0,0,10,ignored,2024,1,1,x\n";
    assert!(chunk_lines(data, Chunk { start: 0, end: 0 }).is_empty());
}

#[test]
fn last_line_is_read_past_the_chunk_end() {
    let data: &[u8] = b"aaaa\nbbbb\n";
    let lines = chunk_lines(data, Chunk { start: 0, end: 2 });
    assert_eq!(lines, vec![&b"aaaa\n"[..]]);
}

#[test]
fn chunk_past_the_end_reads_nothing() {
    let data: &[u8] = b"aaaa\n";
    assert!(chunk_lines(data, Chunk { start: 9, end: 20 }).is_empty());
}

#[test]
fn skipping_the_partial_line() {
    let data: &[u8] = b"ab\ncd\nef";
    assert_eq!(skip_partial_line(data, 0), 0);
    assert_eq!(skip_partial_line(data, 1), 3);
    assert_eq!(skip_partial_line(data, 2), 3);
    assert_eq!(skip_partial_line(data, 3), 3);
    assert_eq!(skip_partial_line(data, 4), 6);
    assert_eq!(skip_partial_line(data, 6), 6);
    assert_eq!(skip_partial_line(data, 7), 8);
    assert_eq!(skip_partial_line(data, 8), 8);
    assert_eq!(skip_partial_line(data, 40), 40);
}

fn lines_of_chunks<'a>(data: &'a [u8], chunks: Vec<Chunk>) -> Vec<&'a [u8]> {
    chunks.into_iter().flat_map(|c| chunk_lines(data, c)).collect()
}

#[test]
fn chunks_read_every_line_once() {
    let data: &[u8] = b"header\nline01\nline02\nline03\nline04\nline05\nline06\n";
    let all = chunk_lines(data, whole(data));
    for n in 1..=data.len() {
        assert_eq!(lines_of_chunks(data, divide_chunks(data, n).unwrap()), all, "{} chunks", n);
    }
}

#[test]
fn chunk_starting_at_a_line_start_reads_that_line() {
    let data: &[u8] = b"ab\ncd\n";
    let halves = vec![Chunk { start: 0, end: 3 }, Chunk { start: 3, end: 6 }];
    assert_eq!(lines_of_chunks(data, halves), vec![&b"ab\n"[..], &b"cd\n"[..]]);
}

#[test]
fn adjacent_chunks_read_what_the_covering_chunk_reads() {
    let data: &[u8] = b"\nx,0,0,10,ignored,2024,1,1,x\n";
    let len = data.len() as u64;
    for b in 0..=len {
        let halves = vec![Chunk { start: 0, end: b }, Chunk { start: b, end: len }];
        assert_eq!(lines_of_chunks(data, halves), chunk_lines(data, whole(data)), "cut at {}", b);
    }
    assert_eq!(chunk_lines(data, Chunk { start: 1, end: 2 }).len(), 1);
}

#[test]
fn any_tiling_reads_every_line_once() {
    let data: &[u8] = b"a\nbb\n\nccc\ndd";
    let all = chunk_lines(data, whole(data));
    let len = data.len() as u64;
    for b1 in 0..=len {
        for b2 in b1..=len {
            let chunks = vec![
                Chunk { start: 0, end: b1 },
                Chunk { start: b1, end: b2 },
                Chunk { start: b2, end: len },
            ];
            assert_eq!(lines_of_chunks(data, chunks), all, "cuts at {} and {}", b1, b2);
        }
    }
}
