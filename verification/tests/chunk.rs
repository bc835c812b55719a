use par_csv::chunk::{divide_chunks, Chunk};
use par_csv::errors::ChunkError;

fn bounds(chunks: &[Chunk]) -> Vec<(u64, u64)> {
    chunks.iter().map(|c| (c.start, c.end)).collect()
}

#[test]
fn test_chunks_cover_entire_file() {
    let content: &[u8] = b"header\nline1\nline2\nline3\nline4\n";
    let file_size = content.len() as u64;
    let chunks = divide_chunks(content, 2).unwrap();

    assert_eq!(chunks[0].start, 0);
    assert_eq!(chunks.last().map(|chunk| chunk.end), Some(file_size));
}

#[test]
fn test_no_gaps_between_chunks() {
    let content: &[u8] = b"header\nline1\nline2\nline3\nline4\n";
    let chunks = divide_chunks(content, 2).unwrap();

    assert_eq!(chunks.len(), 2);
    for window in chunks.windows(2) {
        assert_eq!(window[0].end, window[1].start);
    }
}

#[test]
fn test_no_empty_chunks() {
    let content: &[u8] =
        b"header\nline01\nline02\nline03\nline04\nline05\nline06\nline07\nline08\nline09\nline10\nline11\nline12\n";
    let chunks = divide_chunks(content, 4).unwrap();

    for chunk in &chunks {
        assert!(chunk.end > chunk.start);
    }
}

#[test]
fn test_correct_number_of_chunks() {
    let content: &[u8] =
        b"header\nline01\nline02\nline03\nline04\nline05\nline06\nline07\nline08\nline09\nline10\nline11\nline12\n";
    let chunks = divide_chunks(content, 4).unwrap();

    assert_eq!(chunks.len(), 4);
}

#[test]
fn cuts_move_to_the_next_line_start() {
    // 31 bytes: the raw cut at 15 falls inside "line2", which ends at 19.
    let content: &[u8] = b"header\nline1\nline2\nline3\nline4\n";
    let chunks = divide_chunks(content, 2).unwrap();
    assert_eq!(bounds(&chunks), vec![(0, 19), (19, 31)]);
}

#[test]
fn every_chunk_but_the_last_ends_after_a_newline() {
    let content: &[u8] =
        b"header\nline01\nline02\nline03\nline04\nline05\nline06\nline07\nline08\nline09\nline10\nline11\nline12\n";
    let chunks = divide_chunks(content, 4).unwrap();
    assert_eq!(bounds(&chunks), vec![(0, 28), (28, 49), (49, 70), (70, 91)]);
    for chunk in &chunks[..chunks.len() - 1] {
        assert_eq!(content[chunk.end as usize - 1], b'\n');
    }
}

#[test]
fn cut_already_at_a_line_start_stays() {
    let content: &[u8] = b"ab\ncd\n";
    let chunks = divide_chunks(content, 2).unwrap();
    assert_eq!(bounds(&chunks), vec![(0, 3), (3, 6)]);
}

#[test]
fn cuts_in_one_long_line_are_merged() {
    let content: &[u8] = b"aaaaaaaaa\nb";
    let chunks = divide_chunks(content, 3).unwrap();
    assert_eq!(bounds(&chunks), vec![(0, 10), (10, 11)]);
}

#[test]
fn cut_moved_to_the_end_is_dropped() {
    let content: &[u8] = b"a\nbbbbbbbbbb";
    let chunks = divide_chunks(content, 2).unwrap();
    assert_eq!(bounds(&chunks), vec![(0, 12)]);
}

#[test]
fn chunks_are_never_empty_and_end_after_newlines() {
    let content: &[u8] = b"a\nbb\n\nccccccccc\ndd\neeeeeeeeeeeeeeeee";
    for n in 1..=content.len() {
        let chunks = divide_chunks(content, n).unwrap();
        assert!(!chunks.is_empty() && chunks.len() <= n);
        assert_eq!(chunks[0].start, 0);
        assert_eq!(chunks.last().unwrap().end, content.len() as u64);
        for chunk in &chunks {
            assert!(chunk.start < chunk.end, "{} chunks", n);
        }
        for w in chunks.windows(2) {
            assert_eq!(w[0].end, w[1].start);
            assert_eq!(content[w[0].end as usize - 1], b'\n', "{} chunks", n);
        }
    }
}

#[test]
fn one_chunk_is_the_whole_source() {
    let chunks = divide_chunks(b"0123456789", 1).unwrap();
    assert_eq!(bounds(&chunks), vec![(0, 10)]);
}

#[test]
fn zero_chunks_is_refused() {
    match divide_chunks(b"0123456789", 0) {
        Err(ChunkError::InvalidChunkCount(msg)) => {
            assert_eq!(msg, "number of chunks must be greater than zero")
        }
        other => panic!("unexpected result: {:?}", other.map(|v| v.len())),
    }
}

#[test]
fn more_chunks_than_bytes_is_refused() {
    match divide_chunks(b"abc", 4) {
        Err(ChunkError::InvalidChunkCount(msg)) => {
            assert_eq!(msg, "number of chunks must be less than or equal to file size")
        }
        other => panic!("unexpected result: {:?}", other.map(|v| v.len())),
    }
}

#[test]
fn empty_source_cannot_be_divided() {
    assert!(matches!(divide_chunks(b"", 1), Err(ChunkError::InvalidChunkCount(_))));
}

#[test]
fn chunk_is_copied_unchanged() {
    let chunk = Chunk { start: 3, end: 9 };
    let copy = chunk.clone();
    assert_eq!((copy.start, copy.end), (3, 9));
}
