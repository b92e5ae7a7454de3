use pgn_pipeline::parser::PgnParser;
use pgn_pipeline::parser::RecordStream;

const SAMPLE_PGN: &str = r#"[Event "Rated Blitz game"]
[Site "https://lichess.org/r0GRizwM"]
[Date "2025.08.01"]
[White "PlayerA"]
[Black "PlayerB"]
[Result "0-1"]
[TimeControl "300+0"]

1. e4 { [%clk 0:05:00] } 1... e5 { [%clk 0:05:00] } 2. Nf3 { [%clk 0:04:59] } 2... Nc6 { [%clk 0:04:59] } 0-1

[Event "Rated Rapid game"]
[Site "https://lichess.org/abc123"]
[Date "2025.08.02"]
[White "PlayerC"]
[Black "PlayerD"]
[Result "1-0"]
[TimeControl "900+0"]

1. d4 { [%clk 0:15:00] } 1... d5 { [%clk 0:15:00] } 1-0
"#;

#[test]
fn test_next_info_parses_two_games() {
    let input: Vec<u8> = SAMPLE_PGN.as_bytes().to_vec();
    let mut parser = PgnParser::new(&input);

    let g1 = parser.next_info().unwrap();
    assert_eq!(g1.event, b"Rated Blitz game".to_vec());
    assert_eq!(g1.white, b"PlayerA".to_vec());
    assert_eq!(g1.black, b"PlayerB".to_vec());
    assert_eq!(g1.time_control, b"300+0".to_vec());
    assert_eq!(g1.half_move_count, 4); // 4 [%clk annotations

    let g2 = parser.next_info().unwrap();
    assert_eq!(g2.event, b"Rated Rapid game".to_vec());
    assert_eq!(g2.time_control, b"900+0".to_vec());
    assert_eq!(g2.half_move_count, 2);

    assert!(parser.next_info().is_none());
}

#[test]
fn test_next_game_captures_raw_pgn() {
    let input: Vec<u8> = SAMPLE_PGN.as_bytes().to_vec();
    let mut parser = PgnParser::new(&input);

    let g1 = parser.next_game().unwrap();
    assert_eq!(g1.info.white, b"PlayerA".to_vec());
    let raw1 = String::from_utf8(g1.raw_pgn.clone()).unwrap();
    assert!(raw1.contains("[Event \"Rated Blitz game\"]"));
    assert!(raw1.contains("e4"));

    let g2 = parser.next_game().unwrap();
    assert_eq!(g2.info.white, b"PlayerC".to_vec());

    assert!(parser.next_game().is_none());
}

#[test]
fn round_trip_reparse_matches_original_parse() {
    let input: Vec<u8> = SAMPLE_PGN.as_bytes().to_vec();
    let mut parser = PgnParser::new(&input);
    while let Some(g) = parser.next_game() {
        let mut reparser = PgnParser::new(&g.raw_pgn);
        let again = reparser.next_game().unwrap();
        assert_eq!(again.info.event, g.info.event);
        assert_eq!(again.info.white, g.info.white);
        assert_eq!(again.info.black, g.info.black);
        assert_eq!(again.info.time_control, g.info.time_control);
        assert_eq!(again.info.half_move_count, g.info.half_move_count);
        assert_eq!(again.raw_pgn, g.raw_pgn);
        assert!(reparser.next_game().is_none());
    }
}

#[test]
fn header_without_blank_separator_still_parses() {
    let text = "[Event \"Rated Blitz game\"]\n[White \"A\"]\n[Black \"B\"]\n1. e4 { [%clk 0:05:00] } 1... e5 { [%clk 0:05:00] } 0-1\n";
    let input: Vec<u8> = text.as_bytes().to_vec();
    let mut parser = PgnParser::new(&input);
    let g = parser.next_info().unwrap();
    assert_eq!(g.event, b"Rated Blitz game".to_vec());
    assert_eq!(g.white, b"A".to_vec());
    assert_eq!(g.black, b"B".to_vec());
    assert_eq!(g.half_move_count, 2);
    assert!(parser.next_info().is_none());
}

#[test]
fn boundary_without_separator_yields_two_records() {
    let text = "[Event \"One\"]\n[White \"A\"]\n1. e4 { [%clk 0:05:00] } 0-1\n[Event \"Two\"]\n[White \"C\"]\n1. d4 { [%clk 0:03:00] } { [%clk 0:03:00] } 1-0\n";
    let input: Vec<u8> = text.as_bytes().to_vec();
    let mut parser = PgnParser::new(&input);
    let g1 = parser.next_info().unwrap();
    assert_eq!(g1.event, b"One".to_vec());
    assert_eq!(g1.white, b"A".to_vec());
    assert_eq!(g1.half_move_count, 1);
    let g2 = parser.next_info().unwrap();
    assert_eq!(g2.event, b"Two".to_vec());
    assert_eq!(g2.white, b"C".to_vec());
    assert_eq!(g2.half_move_count, 2);
    assert!(parser.next_info().is_none());
}

#[test]
fn partial_record_at_end_of_input_is_kept() {
    let text = "[Event \"Tail\"]\n[White \"A\"]\n1. e4 { [%clk 0:05:00] }";
    let input: Vec<u8> = text.as_bytes().to_vec();
    let mut parser = PgnParser::new(&input);
    let g = parser.next_info().unwrap();
    assert_eq!(g.event, b"Tail".to_vec());
    assert_eq!(g.half_move_count, 1);
    assert!(parser.next_info().is_none());
}

#[test]
fn malformed_headers_and_unknown_keys_are_tolerated() {
    let text = "[Event \"Ok\"]\n[Foo \"bar\"]\n[White \"unclosed]\n[Black \"B\"]\n\n1. e4 { [%clk 0:01:00] } 1-0\n";
    let input: Vec<u8> = text.as_bytes().to_vec();
    let mut parser = PgnParser::new(&input);
    let g = parser.next_info().unwrap();
    assert_eq!(g.event, b"Ok".to_vec());
    // `[Foo "bar"]` is an unrecognised key; `[White "unclosed]` has no
    // closing quote around its value: both are ignored without error.
    assert_eq!(g.white, b"".to_vec());
    assert_eq!(g.black, b"B".to_vec());
    assert_eq!(g.half_move_count, 1);
    assert!(parser.next_info().is_none());
}

#[test]
fn crlf_line_endings_are_normalized() {
    let text = "[Event \"E\"]\r\n[White \"A\"]\r\n\r\n1. e4 { [%clk 0:05:00] } 1-0\r\n";
    let input: Vec<u8> = text.as_bytes().to_vec();
    let mut parser = PgnParser::new(&input);
    let g = parser.next_game().unwrap();
    assert_eq!(g.info.event, b"E".to_vec());
    assert_eq!(g.info.half_move_count, 1);
    let raw = String::from_utf8(g.raw_pgn).unwrap();
    assert!(!raw.contains('\r'));
}

#[test]
fn stream_feed_matches_pull_parser() {
    let input: Vec<u8> = SAMPLE_PGN.as_bytes().to_vec();
    let mut pull = PgnParser::new(&input);
    let mut pulled = Vec::new();
    while let Some(g) = pull.next_game() {
        pulled.push(g);
    }

    let mut stream = RecordStream::new();
    let mut fed = Vec::new();
    for line in SAMPLE_PGN.split_inclusive('\n') {
        if let Some(g) = stream.feed_line(&line.as_bytes().to_vec()) {
            fed.push(g);
        }
    }
    if let Some(g) = stream.finish() {
        fed.push(g);
    }

    assert_eq!(pulled.len(), 2);
    assert_eq!(fed.len(), pulled.len());
    for (a, b) in fed.iter().zip(pulled.iter()) {
        assert_eq!(a.info.event, b.info.event);
        assert_eq!(a.info.white, b.info.white);
        assert_eq!(a.info.black, b.info.black);
        assert_eq!(a.info.time_control, b.info.time_control);
        assert_eq!(a.info.half_move_count, b.info.half_move_count);
        assert_eq!(a.raw_pgn, b.raw_pgn);
    }
}

#[test]
fn stream_handles_missing_separators_and_crlf() {
    let text = "[Event \"One\"]\r\n1. e4 { [%clk 0:05:00] } 0-1\r\n[Event \"Two\"]\r\n";
    let mut stream = RecordStream::new();
    let mut records = Vec::new();
    for line in text.split_inclusive('\n') {
        if let Some(g) = stream.feed_line(&line.as_bytes().to_vec()) {
            records.push(g);
        }
    }
    if let Some(g) = stream.finish() {
        records.push(g);
    }
    assert_eq!(records.len(), 2);
    assert_eq!(records[0].info.event, b"One".to_vec());
    assert_eq!(records[0].info.half_move_count, 1);
    assert_eq!(records[1].info.event, b"Two".to_vec());
    assert_eq!(records[1].info.half_move_count, 0);
    assert!(!String::from_utf8(records[0].raw_pgn.clone()).unwrap().contains('\r'));
}
