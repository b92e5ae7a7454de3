use pgn_pipeline::config::Config;
use pgn_pipeline::database::Database;
use pgn_pipeline::events::{EventSink, PipelineControl, UiEvent};
use pgn_pipeline::ledger::Ledger;
use pgn_pipeline::parser::GameInfo;
use pgn_pipeline::pipeline::{
    count_game, extract_month, is_valid_game, pass1_count, process_archive, prune_players,
    PipelineError,
};
use pgn_pipeline::parser::RecordStream;
use pgn_pipeline::writer::PlayerWriter;

struct NullSink;

impl EventSink for NullSink {
    fn send(&self, _event: UiEvent) {}

    fn check(&self) -> Result<(), PipelineError> {
        Ok(())
    }
}

fn test_config() -> Config {
    Config {
        dataset_urls: Vec::new(),
        output_dir: b"out".to_vec(),
        temp_dir: b"out/temp".to_vec(),
        db_path: b":memory:".to_vec(),
        event_filter: b"Rated Blitz game".to_vec(),
        time_control_filter: Some(b"300+0".to_vec()),
        min_full_moves: 30,
        min_monthly_games: 25,
        min_total_games: 100,
        write_buffer_max_bytes: 1 << 20,
    }
}

fn game_text(white: &str, black: &str, half_moves: usize) -> String {
    let mut s = String::new();
    s.push_str("[Event \"Rated Blitz game\"]\n");
    s.push_str(&format!("[White \"{}\"]\n", white));
    s.push_str(&format!("[Black \"{}\"]\n", black));
    s.push_str("[TimeControl \"300+0\"]\n\n");
    for _ in 0..half_moves {
        s.push_str("x { [%clk 0:05:00] } ");
    }
    s.push('\n');
    s.push('\n');
    s
}

fn info(event: &str, tc: &str, half: u32) -> GameInfo {
    GameInfo {
        event: event.as_bytes().to_vec(),
        white: b"W".to_vec(),
        black: b"B".to_vec(),
        time_control: tc.as_bytes().to_vec(),
        half_move_count: half,
    }
}

#[test]
fn filter_accepts_sixty_half_moves_and_rejects_fifty_nine() {
    let config = test_config();
    assert!(!is_valid_game(&info("Rated Blitz game", "300+0", 59), &config));
    assert!(is_valid_game(&info("Rated Blitz game", "300+0", 60), &config));
    assert!(!is_valid_game(&info("Rated Rapid game", "300+0", 60), &config));
    assert!(!is_valid_game(&info("Rated Blitz game", "900+0", 60), &config));
}

#[test]
fn filter_without_time_control_accepts_any() {
    let mut config = test_config();
    config.time_control_filter = None;
    assert!(is_valid_game(&info("Rated Blitz game", "900+0", 60), &config));
}

#[test]
fn extract_month_takes_stem_after_last_underscore() {
    let url = b"https://database.lichess.org/standard/lichess_db_standard_rated_2025-01.pgn.zst"
        .to_vec();
    assert_eq!(extract_month(&url), b"2025-01".to_vec());
    assert_eq!(extract_month(&b"plain_2024-12.pgn.zst".to_vec()), b"2024-12".to_vec());
    assert_eq!(extract_month(&b"nounderscore".to_vec()), b"nounderscore".to_vec());
}

#[test]
fn pass1_counts_only_qualifying_games_per_player() {
    let config = test_config();
    let mut text = String::new();
    // two qualifying games for X (one as white, one as black), one short game
    text.push_str(&game_text("X", "Y", 60));
    text.push_str(&game_text("Y", "X", 61));
    text.push_str(&game_text("X", "Y", 59));
    let input = text.into_bytes();
    let (led, scanned, valid) = pass1_count(&input, &config, &NullSink).unwrap();
    assert_eq!(scanned, 3);
    assert_eq!(valid, 2);
    let x = b"X".to_vec();
    let y = b"Y".to_vec();
    assert!(led.contains(&x));
    assert!(led.contains(&y));
    let qualifying = led.filter_at_least(2);
    assert!(qualifying.contains(&x));
    assert!(qualifying.contains(&y));
    let strict = led.filter_at_least(3);
    assert!(!strict.contains(&x));
}

#[test]
fn empty_player_names_are_not_counted() {
    let config = test_config();
    let text = "[Event \"Rated Blitz game\"]\n[TimeControl \"300+0\"]\n\n".to_string()
        + &"x { [%clk 0:05:00] } ".repeat(60)
        + "\n";
    let input = text.into_bytes();
    let (led, _, valid) = pass1_count(&input, &config, &NullSink).unwrap();
    assert_eq!(valid, 1);
    assert_eq!(led.len(), 0);
}

#[test]
fn ledger_qualification_threshold_is_inclusive() {
    let mut led = Ledger::new();
    let x = b"X".to_vec();
    let y = b"Y".to_vec();
    for _ in 0..25 {
        led.bump(&x);
    }
    for _ in 0..24 {
        led.bump(&y);
    }
    let qual = led.filter_at_least(25);
    assert!(qual.contains(&x));
    assert!(!qual.contains(&y));
}

#[test]
fn writer_flush_threshold_triggers_exactly_once_and_resets() {
    let mut w = PlayerWriter::new(b"players".to_vec(), 60);
    let a = b"Alice".to_vec();
    // 30 bytes + newline: below the 60-byte budget
    let text1 = vec![b'x'; 30];
    let r1 = w.add_game(&a, &text1).unwrap();
    assert!(r1.is_none());
    // the next add reaches 62 buffered bytes and crosses the budget:
    // one flush, everything drained
    let r2 = w.add_game(&a, &text1).unwrap();
    let entries = r2.expect("crossing the budget must flush");
    assert_eq!(entries.len(), 1);
    assert_eq!(
        String::from_utf8(entries[0].path.clone()).unwrap(),
        "players/al/Alice.pgn.zst"
    );
    // the frame decodes back to both texts, each with its trailing newline
    let decoded = zstd::stream::decode_all(entries[0].data.as_slice()).unwrap();
    let mut expect = Vec::new();
    expect.extend_from_slice(&text1);
    expect.push(b'\n');
    expect.extend_from_slice(&text1);
    expect.push(b'\n');
    assert_eq!(decoded, expect);
    // buffer is empty again: the next add buffers
    let r3 = w.add_game(&a, &text1).unwrap();
    assert!(r3.is_none());
    let rest = w.flush_all().unwrap();
    assert_eq!(rest.len(), 1);
}

#[test]
fn writer_shards_by_two_lowered_characters() {
    let w = PlayerWriter::new(b"players".to_vec(), 0);
    assert_eq!(
        String::from_utf8(w.player_path(&b"Bob".to_vec())).unwrap(),
        "players/bo/Bob.pgn.zst"
    );
    assert_eq!(
        String::from_utf8(w.player_path(&b"Q".to_vec())).unwrap(),
        "players/q/Q.pgn.zst"
    );
}

#[test]
fn database_marks_and_reports_processed_archives() {
    let mut db = Database::open(&b":memory:".to_vec()).unwrap();
    let url = b"https://example.org/a_2025-01.pgn.zst".to_vec();
    assert!(!db.is_dataset_processed(&url).unwrap());
    db.mark_dataset_processed(&url).unwrap();
    assert!(db.is_dataset_processed(&url).unwrap());
    // marking again changes nothing
    db.mark_dataset_processed(&url).unwrap();
    assert!(db.is_dataset_processed(&url).unwrap());
}

#[test]
fn database_accumulates_totals_across_months() {
    let mut db = Database::open(&b":memory:".to_vec()).unwrap();
    let x = b"X".to_vec();
    let mut led1 = Ledger::new();
    for _ in 0..30 {
        led1.bump(&x);
    }
    db.update_player_counts(&b"2025-01".to_vec(), &led1).unwrap();
    let mut led2 = Ledger::new();
    for _ in 0..45 {
        led2.bump(&x);
    }
    db.update_player_counts(&b"2025-02".to_vec(), &led2).unwrap();
    // total is 75: X is below 100 but not below 75
    assert_eq!(db.get_players_below_total(75).unwrap().len(), 0);
    assert_eq!(db.get_players_below_total(100).unwrap(), vec![x.clone()]);
    assert_eq!(db.get_total_qualifying_players(75).unwrap(), 1);
}

#[test]
fn database_month_rerun_replaces_rather_than_doubles() {
    let mut db = Database::open(&b":memory:".to_vec()).unwrap();
    let x = b"X".to_vec();
    let mut led = Ledger::new();
    for _ in 0..30 {
        led.bump(&x);
    }
    db.update_player_counts(&b"2025-01".to_vec(), &led).unwrap();
    db.update_player_counts(&b"2025-01".to_vec(), &led).unwrap();
    // the monthly row was replaced, but the running total is additive
    assert_eq!(db.get_players_below_total(61).unwrap(), vec![x.clone()]);
    assert_eq!(db.get_players_below_total(60).unwrap().len(), 0);
}

#[test]
fn database_prunes_players_below_total() {
    let mut db = Database::open(&b":memory:".to_vec()).unwrap();
    let x = b"X".to_vec();
    let y = b"Y".to_vec();
    let mut led = Ledger::new();
    for _ in 0..120 {
        led.bump(&x);
    }
    for _ in 0..30 {
        led.bump(&y);
    }
    db.update_player_counts(&b"2025-01".to_vec(), &led).unwrap();
    let removed = db.remove_players_below_total(100).unwrap();
    assert_eq!(removed, 1);
    assert_eq!(db.get_total_players().unwrap(), 1);
    assert_eq!(db.get_total_qualifying_players(100).unwrap(), 1);
    assert_eq!(db.get_players_below_total(1000).unwrap(), vec![x.clone()]);
}

#[test]
fn concrete_scenario_alice_qualifies_monthly_but_is_pruned() {
    // min_full_moves=30, min_monthly_games=25, min_total_games=100;
    // 30 games for Alice (each 60 half-moves), 10 for Bob.
    let config = test_config();
    let mut text = String::new();
    for i in 0..30 {
        text.push_str(&game_text("Alice", &format!("Opp{}", i), 60));
    }
    for i in 0..10 {
        text.push_str(&game_text("Bob", &format!("Other{}", i), 60));
    }
    let input = text.into_bytes();
    let url = b"https://example.org/standard_2025-01.pgn.zst".to_vec();
    let mut db = Database::open(&config.db_path).unwrap();

    let outcome = process_archive(&mut db, &config, &url, &input, &NullSink).unwrap();
    assert!(!outcome.skipped);
    // pass 2 extracts exactly Alice's 30 entries
    assert_eq!(outcome.extracted, 30);
    for entry in &outcome.writes {
        let path = String::from_utf8(entry.path.clone()).unwrap();
        assert_eq!(path, "out/players/al/Alice.pgn.zst");
    }
    assert!(db.is_dataset_processed(&url).unwrap());
    // Alice's total is 30
    assert_eq!(db.get_players_below_total(31).unwrap(), vec![b"Alice".to_vec()]);
    assert_eq!(db.get_players_below_total(30).unwrap().len(), 0);

    // processing the same archive again performs no work
    let again = process_archive(&mut db, &config, &url, &input, &NullSink).unwrap();
    assert!(again.skipped);
    assert_eq!(again.extracted, 0);
    assert!(again.writes.is_empty());
    assert_eq!(db.get_players_below_total(31).unwrap(), vec![b"Alice".to_vec()]);

    // the final prune removes Alice (30 < 100)
    let prune = prune_players(&mut db, &config, &NullSink).unwrap();
    assert_eq!(prune.names, vec![b"Alice".to_vec()]);
    assert_eq!(
        prune.paths,
        vec![b"out/players/al/Alice.pgn.zst".to_vec()]
    );
    assert_eq!(prune.removed, 1);
    assert_eq!(prune.remaining, 0);
    assert_eq!(db.get_total_players().unwrap(), 0);
}

#[test]
fn cancellation_skips_work_and_leaves_index_unchanged() {
    struct CancelledSink;

    impl EventSink for CancelledSink {
        fn send(&self, _event: UiEvent) {}

        fn check(&self) -> Result<(), PipelineError> {
            Err(PipelineError::Cancelled)
        }
    }

    let config = test_config();
    let input = game_text("Alice", "Bob", 60).into_bytes();
    let url = b"https://example.org/standard_2025-01.pgn.zst".to_vec();
    let mut db = Database::open(&config.db_path).unwrap();
    let r = process_archive(&mut db, &config, &url, &input, &CancelledSink);
    assert!(matches!(r, Err(PipelineError::Cancelled)));
    assert!(!db.is_dataset_processed(&url).unwrap());
    assert_eq!(db.get_total_players().unwrap(), 0);
}

#[test]
fn control_flags_pause_resume_cancel() {
    let mut c = PipelineControl::new();
    assert!(!c.is_paused());
    assert!(!c.is_cancelled());
    assert!(c.check().is_ok());
    c.pause();
    assert!(c.is_paused());
    c.resume();
    assert!(!c.is_paused());
    c.pause();
    c.cancel();
    // cancel also releases the pause, and check reports cancellation
    assert!(!c.is_paused());
    assert!(c.is_cancelled());
    assert!(matches!(c.check(), Err(PipelineError::Cancelled)));
}

#[test]
fn default_configuration_lists_twelve_months() {
    let c = Config::default_blitz_300();
    assert_eq!(c.dataset_urls.len(), 12);
    assert_eq!(
        String::from_utf8(c.dataset_urls[0].clone()).unwrap(),
        "https://database.lichess.org/standard/lichess_db_standard_rated_2025-01.pgn.zst"
    );
    assert_eq!(
        String::from_utf8(c.dataset_urls[11].clone()).unwrap(),
        "https://database.lichess.org/standard/lichess_db_standard_rated_2025-12.pgn.zst"
    );
    assert_eq!(c.event_filter, b"Rated Blitz game".to_vec());
    assert_eq!(c.time_control_filter, Some(b"300+0".to_vec()));
    assert_eq!(c.min_full_moves, 30);
    assert_eq!(c.min_monthly_games, 25);
    assert_eq!(c.min_total_games, 100);
    assert_eq!(String::from_utf8(c.players_dir()).unwrap(), "pgn_output/players");
}

#[test]
fn database_open_failure_is_a_storage_error() {
    // SQLite cannot create a database file inside a directory that does
    // not exist.
    let r = Database::open(&b"/nonexistent-dir-for-this-test/index.db".to_vec());
    assert!(matches!(r, Err(PipelineError::Storage(_))));
}

#[test]
fn writer_flushes_every_buffered_player_in_order() {
    let mut w = PlayerWriter::new(b"p".to_vec(), 1 << 20);
    assert!(w.add_game(&b"Alice".to_vec(), &b"one".to_vec()).unwrap().is_none());
    assert!(w.add_game(&b"Bob".to_vec(), &b"two".to_vec()).unwrap().is_none());
    assert!(w.add_game(&b"Alice".to_vec(), &b"three".to_vec()).unwrap().is_none());
    let entries = w.flush_all().unwrap();
    assert_eq!(entries.len(), 2);
    assert_eq!(String::from_utf8(entries[0].path.clone()).unwrap(), "p/al/Alice.pgn.zst");
    assert_eq!(String::from_utf8(entries[1].path.clone()).unwrap(), "p/bo/Bob.pgn.zst");
    let alice = zstd::stream::decode_all(entries[0].data.as_slice()).unwrap();
    assert_eq!(alice, b"one\nthree\n".to_vec());
    let bob = zstd::stream::decode_all(entries[1].data.as_slice()).unwrap();
    assert_eq!(bob, b"two\n".to_vec());
    // a second flush has nothing to write
    assert_eq!(w.flush_all().unwrap().len(), 0);
}

#[test]
fn count_game_streaming_matches_batch_counts() {
    let config = test_config();
    let mut text = String::new();
    text.push_str(&game_text("X", "Y", 60));
    text.push_str(&game_text("Y", "X", 61));
    text.push_str(&game_text("X", "Y", 59));
    // batch
    let input = text.clone().into_bytes();
    let (batch_led, _, _) = pass1_count(&input, &config, &NullSink).unwrap();
    // streaming, one line at a time
    let mut stream = RecordStream::new();
    let mut led = Ledger::new();
    for line in text.split_inclusive('\n') {
        if let Some(g) = stream.feed_line(&line.as_bytes().to_vec()) {
            count_game(&mut led, &g.info, &config);
        }
    }
    if let Some(g) = stream.finish() {
        count_game(&mut led, &g.info, &config);
    }
    for name in [b"X".to_vec(), b"Y".to_vec()] {
        assert_eq!(led.contains(&name), batch_led.contains(&name));
    }
    let q1 = led.filter_at_least(2);
    let q2 = batch_led.filter_at_least(2);
    assert_eq!(q1.len(), q2.len());
    assert!(q1.contains(&b"X".to_vec()) && q1.contains(&b"Y".to_vec()));
}

#[test]
fn writer_shards_multibyte_names_by_characters() {
    // a name starting with two-byte characters shards under its first
    // two whole characters, never splitting one
    let w = PlayerWriter::new(b"p".to_vec(), 0);
    let name = "Ана".as_bytes().to_vec();
    let path = w.player_path(&name);
    let expect = format!("p/{}/{}.pgn.zst", "Ан", "Ана");
    assert_eq!(String::from_utf8(path).unwrap(), expect);
}
