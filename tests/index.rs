use gamma_chess::chunks::{chunk_count, chunk_range};
use gamma_chess::index_file::{parse_index, parse_offset, render_index, render_offset, IndexFileError};
use gamma_chess::indexer::{build_index, line_is_blank, line_is_header, Indexer};
use gamma_chess::locator::{locate, LocateError};

/// Lines of one game whose block, terminators included, takes `size` bytes.
fn game_block(size: usize) -> Vec<String> {
    let fixed = vec![
        "[Event \"Rated Blitz game\"]".to_string(),
        String::new(),
        "1. e4 e5 2. Nf3 Nc6 1-0".to_string(),
        String::new(),
    ];
    let fixed_len: usize = fixed.iter().map(|l| l.len() + 1).sum();
    let site_frame = "[Site \"\"]".len() + 1;
    let pad = size - fixed_len - site_frame;
    let site = format!("[Site \"{}\"]", "x".repeat(pad));
    vec![
        fixed[0].clone(),
        site,
        fixed[1].clone(),
        fixed[2].clone(),
        fixed[3].clone(),
    ]
}

fn corpus() -> Vec<String> {
    let mut lines = game_block(812);
    lines.extend(game_block(778));
    lines.extend(game_block(400));
    lines
}

#[test]
fn index_lists_game_offsets() {
    let index = build_index(&corpus());
    assert_eq!(index, vec![0, 812, 1590]);
    let text = render_index(&index);
    assert_eq!(text, b"0\n812\n1590\n".to_vec());
    let lines: Vec<&str> = std::str::from_utf8(&text).unwrap().lines().collect();
    assert_eq!(lines, vec!["0", "812", "1590"]);
}

#[test]
fn index_is_increasing() {
    let index = build_index(&corpus());
    for i in 0..index.len() - 1 {
        assert!(index[i] <= index[i + 1]);
    }
}

#[test]
fn scanning_from_located_game_matches_full_scan() {
    let lines = corpus();
    let index = build_index(&lines);
    let offset = locate(&index, 1).unwrap();
    assert_eq!(offset, 812);
    // the line at that offset opens a game
    let mut at = 0u64;
    let mut k = 0;
    while at < offset {
        at += lines[k].len() as u64 + 1;
        k += 1;
    }
    assert_eq!(at, offset);
    assert!(line_is_header(&lines[k]));
    let tail = build_index(&lines[k..].to_vec());
    let shifted: Vec<u64> = tail.iter().map(|o| o + offset).collect();
    assert_eq!(shifted, index[1..].to_vec());
}

#[test]
fn locate_past_end_is_a_range_error() {
    let index = build_index(&corpus());
    assert_eq!(
        locate(&index, index.len()),
        Err(LocateError::OutOfRange { requested: 3, len: 3 })
    );
    assert_eq!(locate(&index, 2), Ok(1590));
    assert_eq!(locate(&Vec::new(), 0), Err(LocateError::OutOfRange { requested: 0, len: 0 }));
}

#[test]
fn repeated_header_before_blank_is_not_indexed() {
    let lines: Vec<String> = vec![
        "[Event \"a\"]",
        "[Event \"b\"]",
        "",
        "1. d4 *",
        "\r",
        "[Event \"c\"]",
    ]
    .into_iter()
    .map(String::from)
    .collect();
    assert_eq!(build_index(&lines), vec![0, 35]);
}

#[test]
fn empty_corpus_has_empty_index() {
    assert_eq!(build_index(&Vec::new()), Vec::<u64>::new());
    assert_eq!(render_index(&Vec::new()), Vec::<u8>::new());
}

#[test]
fn offsets_count_utf8_bytes() {
    let lines: Vec<String> = vec!["[Event \"Échecs\"]", "", "[Event \"x\"]"]
        .into_iter()
        .map(String::from)
        .collect();
    // "[Event \"Échecs\"]" is 16 characters and 17 bytes
    assert_eq!(build_index(&lines), vec![0, 19]);
}

#[test]
fn streaming_indexer_reports_starts() {
    let mut ix = Indexer::new();
    assert_eq!(ix.feed("[Event \"x\"]"), Some(0));
    assert_eq!(ix.feed("[Site \"y\"]"), None);
    assert_eq!(ix.feed(" \t"), None);
    assert_eq!(ix.feed("[Event \"z\"]"), Some(26));
    assert_eq!(ix.offset(), 38);
}

#[test]
fn blank_and_header_lines() {
    assert!(line_is_blank(""));
    assert!(line_is_blank(" \t\u{a0}\u{3000}"));
    assert!(!line_is_blank(" x "));
    assert!(line_is_header("[Event \"Rated\"]"));
    assert!(!line_is_header("[Event"));
    assert!(!line_is_header(" [Event \"x\"]"));
}

#[test]
fn offsets_render_and_parse() {
    assert_eq!(render_offset(0), b"0".to_vec());
    assert_eq!(render_offset(u64::MAX), b"18446744073709551615".to_vec());
    assert_eq!(parse_offset(b"812"), Some(812));
    assert_eq!(parse_offset(b"+42"), Some(42));
    assert_eq!(parse_offset(b"18446744073709551615"), Some(u64::MAX));
    assert_eq!(parse_offset(b"18446744073709551616"), None);
    assert_eq!(parse_offset(b""), None);
    assert_eq!(parse_offset(b"+"), None);
    assert_eq!(parse_offset(b"-1"), None);
    assert_eq!(parse_offset(b"12a"), None);
    assert_eq!(parse_offset(&render_offset(1590)), Some(1590));
}

#[test]
fn index_lines_parse_or_name_the_bad_line() {
    let good: Vec<String> = vec!["0".to_string(), "812".to_string()];
    assert_eq!(parse_index(&good), Ok(vec![0, 812]));
    let bad: Vec<String> = vec!["0".to_string(), "x".to_string(), "9".to_string()];
    assert_eq!(parse_index(&bad), Err(IndexFileError::BadEntry(1)));
}

#[test]
fn chunks_tile_the_games() {
    assert_eq!(chunk_count(25, 10), 3);
    assert_eq!(chunk_count(20, 10), 2);
    assert_eq!(chunk_count(0, 10), 0);
    assert_eq!(chunk_range(25, 10, 0), (0, 10));
    assert_eq!(chunk_range(25, 10, 1), (10, 10));
    assert_eq!(chunk_range(25, 10, 2), (20, 5));
    let total = 6_225_957;
    let size = 10_000;
    let n = chunk_count(total, size);
    assert_eq!(n, 623);
    let mut next = 0;
    for id in 0..n {
        let (start, len) = chunk_range(total, size, id);
        assert_eq!(start, next);
        next = start + len;
    }
    assert_eq!(next, total);
}
