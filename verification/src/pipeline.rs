//! The per-archive pipeline: count, qualify, extract, commit, prune.
//!
//! Each archive goes through two passes over the same decompressed
//! bytes: a counting pass that tallies qualifying games per player,
//! and, if any player reaches the monthly threshold, an extraction pass
//! that hands every qualifying player's record texts to the buffered
//! writer.  The archive's counts are then committed to the index and the
//! archive is marked processed.  A final pruning pass removes players
//! whose cumulative total stayed below the total-games threshold.
//!
//! A caller that streams an oversized archive runs the same passes one
//! record at a time: `RecordStream` yields the records, `count_game` is
//! the counting step, and `PlayerWriter::add_game` the extraction step;
//! `process_archive` composes the whole archive in one call when the
//! decompressed bytes are at hand.

use vstd::prelude::*;

verus! {

use crate::config::Config;
use crate::config::FilterCfg;
use crate::config::lit_ext_pgn_zst;
use crate::database::Database;
use crate::database::lists_names_below;
use crate::events::EventSink;
use crate::events::UiEvent;
use crate::ledger::Ledger;
use crate::ledger::bump_spec;
use crate::ledger::filter_min;
use crate::parser::FieldsS;
use crate::parser::GameInfo;
use crate::parser::PgnParser;
use crate::parser::RecAcc;
use crate::parser::ScanPhase;
use crate::parser::MAX_INPUT_BYTES;
use crate::parser::scan0;
use crate::parser::empty_acc;
use crate::parser::split_lines_spec;
use crate::writer::BufState;
use crate::writer::FlushEntry;
use crate::writer::PlayerWriter;
use crate::writer::entries_view;
use crate::writer::wadd;
use crate::ledger::bytes_eq;

/// Why a run stopped early.  Cancellation is the designed shutdown path,
/// not an operational error; `Storage` carries the underlying database
/// error; `Compress` reports a failed compression of buffered output.
#[derive(Debug)]
pub enum PipelineError {
    Cancelled,
    Storage(rusqlite::Error),
    Compress,
}

// ───────────────────────── the record filter ─────────────────────────────────

/// Whether a record passes the configured filter: event equality, time
/// control equality when one is configured, and at least two half-moves
/// per configured full move.
pub open spec fn valid_rec(f: FieldsS, half: nat, cfg: FilterCfg) -> bool {
    &&& f.event == cfg.event
    &&& (match cfg.tc {
        Some(t) => f.tc == t,
        None => true,
    })
    &&& half >= 2 * cfg.min_full_moves
}

pub open spec fn info_fields(g: &GameInfo) -> FieldsS {
    FieldsS { event: g.event@, white: g.white@, black: g.black@, tc: g.time_control@ }
}

/// Whether this record counts under the configured filter.
pub fn is_valid_game(info: &GameInfo, config: &Config) -> (r: bool)
    ensures
        r == valid_rec(info_fields(info), info.half_move_count as nat, config.filter_view()),
{
    if !bytes_eq(&info.event, &config.event_filter) {
        return false;
    }
    match config.time_control_filter {
        Some(ref t) => {
            if !bytes_eq(&info.time_control, t) {
                return false;
            }
        },
        None => {},
    }
    (info.half_move_count as u64) >= 2 * (config.min_full_moves as u64)
}

// ───────────────────────── month extraction ──────────────────────────────────

/// Largest index holding `b`, or -1 if none.
pub open spec fn last_idx(s: Seq<u8>, b: u8) -> int
    decreases s.len(),
{
    if s.len() == 0 {
        -1
    } else if s.last() == b {
        s.len() - 1
    } else {
        last_idx(s.drop_last(), b)
    }
}

/// Trailing `.pgn.zst` extensions removed, repeatedly.
pub open spec fn strip_archive_ext(s: Seq<u8>) -> Seq<u8>
    decreases s.len(),
{
    if s.len() >= 8 && s.subrange(s.len() - 8, s.len() as int) == lit_ext_pgn_zst() {
        strip_archive_ext(s.subrange(0, s.len() - 8))
    } else {
        s
    }
}

/// The month key of an archive identifier: the file name after the last
/// `/`, without its `.pgn.zst` extension, after its last `_`.
pub open spec fn month_of(url: Seq<u8>) -> Seq<u8> {
    let fname = url.subrange(last_idx(url, 47) + 1, url.len() as int);
    let stem = strip_archive_ext(fname);
    stem.subrange(last_idx(stem, 95) + 1, stem.len() as int)
}

/// `last_idx` is the unique match with nothing after it.
proof fn lemma_last_idx_char(s: Seq<u8>, b: u8, j: int)
    requires
        -1 <= j < s.len(),
        forall|k: int| j < k < s.len() ==> s[k] != b,
        j >= 0 ==> s[j] == b,
    ensures
        last_idx(s, b) == j,
    decreases s.len(),
{
    if s.len() > 0 && s.last() != b {
        assert(forall|k: int| j < k < s.drop_last().len() ==> s.drop_last()[k] != b);
        if j >= 0 {
            assert(s.drop_last()[j] == s[j]);
        }
        lemma_last_idx_char(s.drop_last(), b, j);
    }
}

/// Largest index of `b` in `v` at or after position 0, as an exec search
/// from the right; the copy of what follows it.
fn after_last(v: &Vec<u8>, b: u8) -> (r: Vec<u8>)
    ensures
        r@ == v@.subrange(last_idx(v@, b) + 1, v@.len() as int),
{
    let n = v.len();
    let mut e: usize = n;
    while e > 0 && v[e - 1] != b
        invariant
            0 <= e <= n == v@.len(),
            forall|k: int| e <= k < n ==> v@[k] != b,
        decreases e,
    {
        e -= 1;
    }
    proof {
        if e == 0 {
            lemma_last_idx_char(v@, b, -1);
        } else {
            lemma_last_idx_char(v@, b, e - 1);
        }
    }
    let mut r: Vec<u8> = Vec::new();
    let mut i: usize = e;
    while i < n
        invariant
            e <= i <= n == v@.len(),
            r@ == v@.subrange(e as int, i as int),
        decreases n - i,
    {
        r.push(v[i]);
        assert(v@.subrange(e as int, i + 1) =~= v@.subrange(e as int, i as int).push(
            v@[i as int],
        ));
        i += 1;
    }
    r
}

/// The month key of an archive identifier.
pub fn extract_month(url: &Vec<u8>) -> (r: Vec<u8>)
    ensures
        r@ == month_of(url@),
{
    let fname = after_last(url, 47);
    // strip repeated `.pgn.zst` extensions
    let mut stem = fname;
    let ext = crate::config::make_ext_pgn_zst();
    loop
        invariant
            ext@ == lit_ext_pgn_zst(),
            strip_archive_ext(stem@) == month_stem(url@),
        ensures
            stem@ == month_stem(url@),
        decreases stem@.len(),
    {
        let n = stem.len();
        if n < 8 {
            proof {
                assert(strip_archive_ext(stem@) == stem@);
            }
            break ;
        }
        let mut matches_ext = true;
        let mut k: usize = 0;
        while k < 8
            invariant
                0 <= k <= 8,
                8 <= n == stem@.len(),
                ext@ == lit_ext_pgn_zst(),
                matches_ext == (forall|j: int|
                    0 <= j < k ==> stem@[n - 8 + j] == ext@[j]),
            decreases 8 - k,
        {
            if stem[n - 8 + k] != ext[k] {
                matches_ext = false;
            }
            k += 1;
        }
        if matches_ext {
            proof {
                assert(stem@.subrange(n - 8, n as int) =~= ext@);
            }
            let mut cut: Vec<u8> = Vec::new();
            let mut i: usize = 0;
            while i < n - 8
                invariant
                    0 <= i <= n - 8,
                    n == stem@.len() >= 8,
                    cut@ == stem@.subrange(0, i as int),
                decreases n - 8 - i,
            {
                cut.push(stem[i]);
                assert(stem@.subrange(0, i + 1) =~= stem@.subrange(0, i as int).push(
                    stem@[i as int],
                ));
                i += 1;
            }
            stem = cut;
        } else {
            proof {
                let w = choose|j: int| 0 <= j < 8 && stem@[n - 8 + j] != ext@[j];
                if stem@.subrange(n - 8, n as int) == ext@ {
                    assert(stem@.subrange(n - 8, n as int)[w] == ext@[w]);
                }
                assert(strip_archive_ext(stem@) == stem@);
            }
            break ;
        }
    }
    after_last(&stem, 95)
}

/// The stem that month extraction works from.
pub open spec fn month_stem(url: Seq<u8>) -> Seq<u8> {
    strip_archive_ext(url.subrange(last_idx(url, 47) + 1, url.len() as int))
}

// ───────────────────────── pass 1: counting ──────────────────────────────────


/// How one record changes the ledger: a passing record credits one game
/// to its white and black players, skipping empty names; a failing
/// record changes nothing.
pub open spec fn credit(m: Map<Seq<u8>, int>, a: RecAcc, cfg: FilterCfg) -> Map<Seq<u8>, int> {
    if !valid_rec(a.f, a.half, cfg) {
        m
    } else {
        let m1 = if a.f.white.len() > 0 {
            bump_spec(m, a.f.white)
        } else {
            m
        };
        if a.f.black.len() > 0 {
            bump_spec(m1, a.f.black)
        } else {
            m1
        }
    }
}

/// The ledger after counting every record from line `i` on, starting
/// from ledger `m`.
pub open spec fn pass1_from(
    lines: Seq<Seq<u8>>,
    i: int,
    m: Map<Seq<u8>, int>,
    cfg: FilterCfg,
) -> Map<Seq<u8>, int>
    decreases lines.len() - i when 0 <= i <= lines.len() via pass1_from_decreases
{
    let out = scan0(lines, i);
    match out.rec {
        None => m,
        Some(a) => pass1_from(lines, out.next, credit(m, a, cfg), cfg),
    }
}

#[via_fn]
proof fn pass1_from_decreases(lines: Seq<Seq<u8>>, i: int, m: Map<Seq<u8>, int>, cfg: FilterCfg) {
    crate::parser::lemma_scan_bounds(lines, i, empty_acc(), ScanPhase::Between);
}

/// The whole counting pass over a byte stream.
pub open spec fn pass1_map(input: Seq<u8>, cfg: FilterCfg) -> Map<Seq<u8>, int> {
    pass1_from(split_lines_spec(input), 0, Map::empty(), cfg)
}

/// Every value is at most `k`.
pub open spec fn map_values_le(m: Map<Seq<u8>, int>, k: int) -> bool {
    forall|n: Seq<u8>| m.contains_key(n) ==> m[n] <= k
}

proof fn lemma_bump_le(m: Map<Seq<u8>, int>, name: Seq<u8>, k: int)
    requires
        map_values_le(m, k),
        k >= 0,
    ensures
        map_values_le(bump_spec(m, name), k + 1),
{
}

proof fn lemma_credit_le(m: Map<Seq<u8>, int>, a: RecAcc, cfg: FilterCfg, k: int)
    requires
        map_values_le(m, k),
        k >= 0,
    ensures
        map_values_le(credit(m, a, cfg), k + 2),
{
    if valid_rec(a.f, a.half, cfg) {
        let m1 = if a.f.white.len() > 0 {
            bump_spec(m, a.f.white)
        } else {
            m
        };
        if a.f.white.len() > 0 {
            lemma_bump_le(m, a.f.white, k);
        }
        assert(map_values_le(m1, k + 1));
        if a.f.black.len() > 0 {
            lemma_bump_le(m1, a.f.black, k + 1);
        }
    }
}

/// A record's filter-relevant data, as the metadata-only pass sees it.
pub open spec fn info_acc(g: &GameInfo) -> RecAcc {
    RecAcc { f: info_fields(g), half: g.half_move_count as nat, raw: Seq::empty() }
}

/// How one record changes the ledger when its counts saturate at
/// `u32::MAX`: the streaming counterpart of `credit`, total on any
/// ledger.
pub open spec fn credit_capped(m: Map<Seq<u8>, int>, a: RecAcc, cfg: FilterCfg) -> Map<
    Seq<u8>,
    int,
> {
    if !valid_rec(a.f, a.half, cfg) {
        m
    } else {
        let m1 = if a.f.white.len() > 0 {
            crate::ledger::bump_capped_spec(m, a.f.white)
        } else {
            m
        };
        if a.f.black.len() > 0 {
            crate::ledger::bump_capped_spec(m1, a.f.black)
        } else {
            m1
        }
    }
}

/// Where no count is near the cap, the capped credit is the exact one.
pub proof fn lemma_credit_capped_is_credit(m: Map<Seq<u8>, int>, a: RecAcc, cfg: FilterCfg)
    requires
        map_values_le(m, 0xFFFF_FFFDint),
    ensures
        credit_capped(m, a, cfg) == credit(m, a, cfg),
{
    if valid_rec(a.f, a.half, cfg) {
        if a.f.white.len() > 0 {
            crate::ledger::lemma_bump_capped_is_bump(m, a.f.white);
        }
        let m1 = if a.f.white.len() > 0 {
            bump_spec(m, a.f.white)
        } else {
            m
        };
        if a.f.black.len() > 0 {
            assert(m1.contains_key(a.f.black) ==> m1[a.f.black] < 0xFFFF_FFFFint);
            crate::ledger::lemma_bump_capped_is_bump(m1, a.f.black);
        }
    }
}

/// Credit one record to its players, skipping empty names: the
/// per-record step of the counting pass, for callers that stream
/// records one at a time.
pub fn count_game(led: &mut Ledger, info: &GameInfo, config: &Config)
    requires
        old(led).wf(),
    ensures
        final(led).wf(),
        final(led).counts() == credit_capped(
            old(led).counts(),
            info_acc(info),
            config.filter_view(),
        ),
{
    if is_valid_game(info, config) {
        if info.white.len() > 0 {
            led.bump_capped(&info.white);
        }
        if info.black.len() > 0 {
            led.bump_capped(&info.black);
        }
    }
}

/// How many of these records pass the filter.
pub open spec fn count_valid(records: Seq<RecAcc>, cfg: FilterCfg) -> int {
    records.filter(|a: RecAcc| valid_rec(a.f, a.half, cfg)).len() as int
}

/// Counting pass: parse every record of the decompressed archive and
/// credit each passing record to its players; periodic progress events
/// and cancellation checks go through the sink.  Also reports how many
/// records were scanned and how many passed the filter.
pub fn pass1_count<S: EventSink>(input: &Vec<u8>, config: &Config, sink: &S) -> (r: Result<
    (Ledger, u64, u64),
    PipelineError,
>)
    requires
        input@.len() <= MAX_INPUT_BYTES,
    ensures
        (match r {
            Ok(out) => out.0.wf() && out.0.counts() == pass1_map(input@, config.filter_view())
                && out.1 as int == crate::parser::records_from(
                split_lines_spec(input@),
                0,
            ).len() && out.2 as int == count_valid(
                crate::parser::records_from(split_lines_spec(input@), 0),
                config.filter_view(),
            ),
            Err(_) => true,
        }),
{
    let ghost cfg = config.filter_view();
    let mut parser = PgnParser::new(input);
    let ghost lines = parser.lines_seq();
    proof {
        crate::parser::lemma_split_lines_props(input@);
    }
    let mut led = Ledger::new();
    let mut scanned: u64 = 0;
    let mut valid: u64 = 0;
    let ghost mut recs: Seq<RecAcc> = Seq::empty();
    proof {
        assert(recs + crate::parser::records_from(lines, 0) =~= crate::parser::records_from(
            lines,
            0,
        ));
        reveal(Seq::filter);
        assert(count_valid(recs, cfg) == 0);
    }
    loop
        invariant
            parser.wf(),
            parser.lines_seq() == lines,
            lines == split_lines_spec(input@),
            lines.len() <= MAX_INPUT_BYTES,
            0 <= parser.pos_int() <= lines.len(),
            led.wf(),
            pass1_from(lines, 0, Map::empty(), cfg) == pass1_from(
                lines,
                parser.pos_int(),
                led.counts(),
                cfg,
            ),
            map_values_le(led.counts(), 2 * scanned as int),
            scanned as int <= parser.pos_int(),
            valid <= scanned,
            led.rows().len() <= 2 * scanned as int,
            cfg == config.filter_view(),
            recs + crate::parser::records_from(lines, parser.pos_int())
                == crate::parser::records_from(lines, 0),
            scanned as int == recs.len(),
            valid as int == count_valid(recs, cfg),
        decreases lines.len() - parser.pos_int(),
    {
        let ghost pos0 = parser.pos_int();
        let ghost out = scan0(lines, pos0);
        proof {
            crate::parser::lemma_scan_bounds(lines, pos0, empty_acc(), ScanPhase::Between);
        }
        match parser.next_info() {
            None => {
                sink.send(
                    UiEvent::Pass1Progress {
                        games_scanned: scanned,
                        valid_games: valid,
                        unique_players: led.len() as u64,
                    },
                );
                proof {
                    assert(crate::parser::records_from(lines, parser.pos_int())
                        =~= Seq::<RecAcc>::empty());
                    assert(recs =~= crate::parser::records_from(lines, 0));
                }
                return Ok((led, scanned, valid));
            },
            Some(info) => {
                let ghost a = out.rec->Some_0;
                proof {
                    assert(crate::parser::records_from(lines, pos0) == seq![a]
                        + crate::parser::records_from(lines, out.next));
                    assert(recs.push(a) + crate::parser::records_from(lines, out.next)
                        =~= recs + (seq![a] + crate::parser::records_from(lines, out.next)));
                    reveal(Seq::filter);
                    assert(recs.push(a).drop_last() =~= recs);
                    assert(count_valid(recs.push(a), cfg) == count_valid(recs, cfg) + (
                    if valid_rec(a.f, a.half, cfg) {
                        1int
                    } else {
                        0int
                    }));
                    recs = recs.push(a);
                }
                scanned = scanned + 1;
                if scanned % 100000 == 0 {
                    sink.send(
                        UiEvent::Pass1Progress {
                            games_scanned: scanned,
                            valid_games: valid,
                            unique_players: led.len() as u64,
                        },
                    );
                }
                if scanned % 500000 == 0 {
                    if let Err(e) = sink.check() {
                        return Err(e);
                    }
                }
                let ghost m0 = led.counts();
                if is_valid_game(&info, config) {
                    valid = valid + 1;
                    proof {
                        assert(valid_rec(a.f, a.half, cfg));
                    }
                    proof {
                        assert(map_values_le(m0, 2 * (scanned - 1) as int));
                        if info.white@.len() > 0 {
                            lemma_bump_le(m0, info.white@, 2 * (scanned - 1) as int);
                        }
                    }
                    if info.white.len() > 0 {
                        led.bump(&info.white);
                    }
                    if info.black.len() > 0 {
                        led.bump(&info.black);
                    }
                    proof {
                        assert(led.counts() == credit(m0, a, cfg));
                    }
                } else {
                    proof {
                        assert(led.counts() == credit(m0, a, cfg));
                    }
                }
                proof {
                    lemma_credit_le(m0, a, cfg, 2 * (scanned - 1) as int);
                }
            },
        }
    }
}

// ───────────────────────── pass 2: extraction ────────────────────────────────

/// The players a passing record is written for: white then black, each
/// only if qualifying (an empty name never qualifies, since the ledger
/// never counts one).
pub open spec fn rec_targets(a: RecAcc, cfg: FilterCfg, qual: Map<Seq<u8>, int>) -> Seq<Seq<u8>> {
    if !valid_rec(a.f, a.half, cfg) {
        Seq::empty()
    } else {
        (if qual.contains_key(a.f.white) {
            seq![a.f.white]
        } else {
            Seq::empty()
        }) + (if qual.contains_key(a.f.black) {
            seq![a.f.black]
        } else {
            Seq::empty()
        })
    }
}

/// One record text added for several players in turn, collecting every
/// append operation the adds trigger.
pub open spec fn wadd_seq(
    dir: Seq<u8>,
    max: nat,
    st: BufState,
    names: Seq<Seq<u8>>,
    text: Seq<u8>,
) -> (BufState, Seq<(Seq<u8>, Seq<u8>)>)
    decreases names.len(),
{
    if names.len() == 0 {
        (st, Seq::empty())
    } else {
        let (st1, o1) = wadd_seq(dir, max, st, names.drop_last(), text);
        let (st2, o2) = wadd(dir, max, st1, names.last(), text);
        (st2, o1 + o2)
    }
}

/// Qualification decides extraction: a record is written for a player
/// exactly when the record passes the filter, the player qualifies, and
/// the player took part as white or black; a player outside the
/// qualifying set is never written for.
pub proof fn lemma_qualifying_written(
    a: RecAcc,
    cfg: FilterCfg,
    qual: Map<Seq<u8>, int>,
    p: Seq<u8>,
)
    ensures
        rec_targets(a, cfg, qual).contains(p) <==> (valid_rec(a.f, a.half, cfg)
            && qual.contains_key(p) && (p == a.f.white || p == a.f.black)),
{
    let ts = rec_targets(a, cfg, qual);
    if valid_rec(a.f, a.half, cfg) {
        let w = if qual.contains_key(a.f.white) {
            seq![a.f.white]
        } else {
            Seq::<Seq<u8>>::empty()
        };
        let b = if qual.contains_key(a.f.black) {
            seq![a.f.black]
        } else {
            Seq::<Seq<u8>>::empty()
        };
        assert(ts == w + b);
        if ts.contains(p) {
            let i = choose|i: int| 0 <= i < ts.len() && ts[i] == p;
            assert(ts[i] == a.f.white || ts[i] == a.f.black);
        }
        if qual.contains_key(p) && p == a.f.white {
            assert(ts[0] == p);
        }
        if qual.contains_key(p) && p == a.f.black {
            assert(ts[ts.len() - 1] == p);
        }
    } else {
        assert(!ts.contains(p));
    }
}

/// Outcome of the extraction pass from line `i` on: the final buffer
/// state, every append operation in order, and how many entries were
/// written.
pub struct P2Out {
    pub st: BufState,
    pub outs: Seq<(Seq<u8>, Seq<u8>)>,
    pub count: nat,
}

pub open spec fn pass2_from(
    lines: Seq<Seq<u8>>,
    i: int,
    st: BufState,
    dir: Seq<u8>,
    max: nat,
    cfg: FilterCfg,
    qual: Map<Seq<u8>, int>,
) -> P2Out
    decreases lines.len() - i when 0 <= i <= lines.len() via pass2_from_decreases
{
    let out = scan0(lines, i);
    match out.rec {
        None => P2Out { st, outs: Seq::empty(), count: 0 },
        Some(a) => {
            let names = rec_targets(a, cfg, qual);
            let (st1, o1) = wadd_seq(dir, max, st, names, a.raw);
            let rest = pass2_from(lines, out.next, st1, dir, max, cfg, qual);
            P2Out { st: rest.st, outs: o1 + rest.outs, count: names.len() + rest.count }
        },
    }
}

#[via_fn]
proof fn pass2_from_decreases(
    lines: Seq<Seq<u8>>,
    i: int,
    st: BufState,
    dir: Seq<u8>,
    max: nat,
    cfg: FilterCfg,
    qual: Map<Seq<u8>, int>,
) {
    crate::parser::lemma_scan_bounds(lines, i, empty_acc(), ScanPhase::Between);
}

/// Append the entries of `src` to `dst`.
fn append_entries(dst: &mut Vec<FlushEntry>, src: Vec<FlushEntry>) -> (r: ())
    ensures
        entries_view(final(dst)@) == entries_view(old(dst)@) + entries_view(src@),
{
    let mut src = src;
    let n = src.len();
    let ghost src0 = src@;
    let mut i: usize = 0;
    while i < n
        invariant
            0 <= i <= n == src0.len(),
            src@ == src0.skip(i as int),
            entries_view(dst@) =~= entries_view(old(dst)@) + entries_view(src0.take(i as int)),
        decreases n - i,
    {
        let e = src.remove(0);
        proof {
            assert(src0.skip(i as int)[0] == src0[i as int]);
            assert(src0.skip(i as int).skip(1) =~= src0.skip(i + 1));
        }
        let ghost d0 = dst@;
        dst.push(e);
        proof {
            assert(entries_view(dst@) =~= entries_view(d0).push((src0[i as int].path@, src0[i as int].data@)));
            assert(entries_view(src0.take(i + 1)) =~= entries_view(src0.take(i as int)).push((src0[i as int].path@, src0[i as int].data@)));
            assert(entries_view(d0).push((src0[i as int].path@, src0[i as int].data@)) =~= entries_view(old(dst)@) + entries_view(src0.take(i + 1)));
        }
        i += 1;
    }
    proof {
        assert(src0.take(n as int) =~= src0);
    }
}

/// Extraction pass: re-parse the archive in full-text mode and hand each
/// passing record's text to the writer once per qualifying participant;
/// returns the number of entries written and every append operation the
/// writer produced on the way.
pub fn pass2_extract<S: EventSink>(
    input: &Vec<u8>,
    config: &Config,
    qualifying: &Ledger,
    writer: &mut PlayerWriter,
    sink: &S,
) -> (r: Result<(u64, Vec<FlushEntry>), PipelineError>)
    requires
        input@.len() <= MAX_INPUT_BYTES,
        old(writer).wf(),
        old(writer).size_spec() == 0,
        old(writer).rows() == Seq::<(Seq<u8>, Seq<u8>)>::empty(),
        config.write_buffer_max_bytes as int + 3 * (input@.len() as int) + 2 <= usize::MAX as int,
        old(writer).max_spec() == config.write_buffer_max_bytes as nat,
    ensures
        final(writer).dir_spec() == old(writer).dir_spec(),
        final(writer).max_spec() == old(writer).max_spec(),
        (match r {
            Ok((count, es)) => {
                let p2 = pass2_from(
                    split_lines_spec(input@),
                    0,
                    old(writer).buf_state(),
                    old(writer).dir_spec(),
                    old(writer).max_spec(),
                    config.filter_view(),
                    qualifying.counts(),
                );
                &&& final(writer).wf()
                &&& final(writer).buf_state() == p2.st
                &&& entries_view(es@) == p2.outs
                &&& count as nat == p2.count
            },
            Err(_) => final(writer).wf(),
        }),
{
    let ghost cfg = config.filter_view();
    let ghost qual = qualifying.counts();
    let ghost dir = writer.dir_spec();
    let ghost max = writer.max_spec();
    let ghost st0 = writer.buf_state();
    let mut parser = PgnParser::new(input);
    let ghost lines = parser.lines_seq();
    proof {
        crate::parser::lemma_split_lines_props(input@);
    }
    let mut out: Vec<FlushEntry> = Vec::new();
    let mut count: u64 = 0;
    proof {
        assert(entries_view(out@) =~= Seq::<(Seq<u8>, Seq<u8>)>::empty());
    }
    loop
        invariant
            parser.wf(),
            parser.lines_seq() == lines,
            lines == split_lines_spec(input@),
            lines.len() <= input@.len(),
            crate::parser::total_len(lines) <= input@.len(),
            input@.len() <= MAX_INPUT_BYTES,
            config.write_buffer_max_bytes as int + 3 * (input@.len() as int) + 2 <= usize::MAX as int,
            0 <= parser.pos_int() <= lines.len(),
            writer.wf(),
            writer.dir_spec() == dir,
            writer.max_spec() == max,
            dir == old(writer).dir_spec(),
            max == old(writer).max_spec(),
            st0 == old(writer).buf_state(),
            max == config.write_buffer_max_bytes as nat,
            writer.size_spec() < max || writer.size_spec() == 0,
            cfg == config.filter_view(),
            qual == qualifying.counts(),
            count as int <= 2 * parser.pos_int(),
            ({
                let full = pass2_from(lines, 0, st0, dir, max, cfg, qual);
                let cur = pass2_from(lines, parser.pos_int(), writer.buf_state(), dir, max, cfg, qual);
                full.st == cur.st && full.outs =~= entries_view(out@) + cur.outs && full.count
                    == count as nat + cur.count
            }),
        decreases lines.len() - parser.pos_int(),
    {
        let ghost pos0 = parser.pos_int();
        let ghost stb = writer.buf_state();
        let ghost scn = scan0(lines, pos0);
        proof {
            crate::parser::lemma_scan_bounds(lines, pos0, empty_acc(), ScanPhase::Between);
            crate::parser::lemma_scan0_raw_bound(lines, pos0);
        }
        match parser.next_game() {
            None => {
                return Ok((count, out));
            },
            Some(g) => {
                let ghost a = scn.rec->Some_0;
                let ghost names = rec_targets(a, cfg, qual);
                let ghost o_rec = wadd_seq(dir, max, stb, names, a.raw).1;
                let ghost st_rec = wadd_seq(dir, max, stb, names, a.raw).0;
                let ghost out_before = out@;
                let ghost count_before = count;
                if is_valid_game(&g.info, config) {
                    let white_ok = qualifying.contains(&g.info.white);
                    let black_ok = qualifying.contains(&g.info.black);
                    let ghost names_w = if qual.contains_key(a.f.white) {
                        seq![a.f.white]
                    } else {
                        Seq::<Seq<u8>>::empty()
                    };
                    let ghost names_b = if qual.contains_key(a.f.black) {
                        seq![a.f.black]
                    } else {
                        Seq::<Seq<u8>>::empty()
                    };
                    proof {
                        if qual.contains_key(a.f.white) {
                            lemma_wadd_seq_one(dir, max, stb, a.f.white, a.raw);
                        } else {
                            lemma_wadd_seq_empty(dir, max, stb, a.raw);
                        }
                    }
                    let ghost st_w = wadd_seq(dir, max, stb, names_w, a.raw).0;
                    let ghost o_w = wadd_seq(dir, max, stb, names_w, a.raw).1;
                    if white_ok {
                        match writer.add_game(&g.info.white, &g.raw_pgn) {
                            Ok(Some(es)) => {
                                append_entries(&mut out, es);
                            },
                            Ok(None) => {},
                            Err(e) => {
                                return Err(e);
                            },
                        }
                        count = count + 1;
                    }
                    proof {
                        assert(writer.buf_state() == st_w);
                        assert(entries_view(out@) =~= entries_view(out_before) + o_w);
                        if qual.contains_key(a.f.black) {
                            lemma_wadd_seq_one(dir, max, st_w, a.f.black, a.raw);
                        } else {
                            lemma_wadd_seq_empty(dir, max, st_w, a.raw);
                        }
                    }
                    let ghost st_b = wadd_seq(dir, max, st_w, names_b, a.raw).0;
                    let ghost o_b = wadd_seq(dir, max, st_w, names_b, a.raw).1;
                    if black_ok {
                        match writer.add_game(&g.info.black, &g.raw_pgn) {
                            Ok(Some(es)) => {
                                append_entries(&mut out, es);
                            },
                            Ok(None) => {},
                            Err(e) => {
                                return Err(e);
                            },
                        }
                        count = count + 1;
                    }
                    proof {
                        assert(writer.buf_state() == st_b);
                        assert(entries_view(out@) =~= (entries_view(out_before) + o_w) + o_b);
                        assert(names =~= names_w + names_b);
                        lemma_wadd_seq_split(dir, max, stb, names_w, names_b, a.raw);
                        assert(st_rec == st_b);
                        assert(o_rec =~= o_w + o_b);
                        assert(entries_view(out@) =~= entries_view(out_before) + o_rec);
                        assert(count as int == count_before + names.len());
                    }
                } else {
                    proof {
                        assert(names =~= Seq::<Seq<u8>>::empty());
                        assert(st_rec == stb && o_rec =~= Seq::<(Seq<u8>, Seq<u8>)>::empty());
                        assert(entries_view(out@) =~= entries_view(out_before) + o_rec);
                    }
                }
                if count % 100000 == 0 && count > 0 {
                    sink.send(UiEvent::Pass2Progress { games_extracted: count });
                }
                if count % 500000 == 0 {
                    if let Err(e) = sink.check() {
                        return Err(e);
                    }
                }
                proof {
                    let full = pass2_from(lines, 0, st0, dir, max, cfg, qual);
                    let cur0 = pass2_from(lines, pos0, stb, dir, max, cfg, qual);
                    let cur1 = pass2_from(lines, parser.pos_int(), writer.buf_state(), dir, max, cfg, qual);
                    assert(cur0.st == cur1.st && cur0.outs == o_rec + cur1.outs && cur0.count
                        == names.len() + cur1.count);
                    assert(full.outs =~= entries_view(out@) + cur1.outs);
                }
            },
        }
    }
}

/// `wadd_seq` of no names does nothing.
proof fn lemma_wadd_seq_empty(dir: Seq<u8>, max: nat, st: BufState, text: Seq<u8>)
    ensures
        wadd_seq(dir, max, st, Seq::<Seq<u8>>::empty(), text) == (
            st,
            Seq::<(Seq<u8>, Seq<u8>)>::empty(),
        ),
{
}

/// `wadd_seq` of one name is one `wadd`.
proof fn lemma_wadd_seq_one(dir: Seq<u8>, max: nat, st: BufState, name: Seq<u8>, text: Seq<u8>)
    ensures
        wadd_seq(dir, max, st, seq![name], text).0 == wadd(dir, max, st, name, text).0,
        wadd_seq(dir, max, st, seq![name], text).1 == wadd(dir, max, st, name, text).1,
{
    let names = seq![name];
    assert(names.drop_last() =~= Seq::<Seq<u8>>::empty());
    assert(names.len() == 1 && names.last() == name);
    assert(wadd_seq(dir, max, st, names.drop_last(), text) == wadd_seq(
        dir,
        max,
        st,
        Seq::<Seq<u8>>::empty(),
        text,
    ));
    assert(wadd_seq(dir, max, st, Seq::<Seq<u8>>::empty(), text) == (
        st,
        Seq::<(Seq<u8>, Seq<u8>)>::empty(),
    ));
    let o2 = wadd(dir, max, st, name, text).1;
    assert(Seq::<(Seq<u8>, Seq<u8>)>::empty() + o2 =~= o2);
}

/// `wadd_seq` over a concatenation runs the two halves in order.
proof fn lemma_wadd_seq_split(
    dir: Seq<u8>,
    max: nat,
    st: BufState,
    n1: Seq<Seq<u8>>,
    n2: Seq<Seq<u8>>,
    text: Seq<u8>,
)
    ensures
        ({
            let (sa, oa) = wadd_seq(dir, max, st, n1, text);
            let (sb, ob) = wadd_seq(dir, max, sa, n2, text);
            wadd_seq(dir, max, st, n1 + n2, text) == (sb, oa + ob)
        }),
    decreases n2.len(),
{
    let (sa, oa) = wadd_seq(dir, max, st, n1, text);
    if n2.len() == 0 {
        assert(n1 + n2 =~= n1);
        assert(oa + Seq::<(Seq<u8>, Seq<u8>)>::empty() =~= oa);
    } else {
        lemma_wadd_seq_split(dir, max, st, n1, n2.drop_last(), text);
        assert((n1 + n2).drop_last() =~= n1 + n2.drop_last());
        assert((n1 + n2).last() == n2.last());
        let (sm, om) = wadd_seq(dir, max, sa, n2.drop_last(), text);
        let (sl, ol) = wadd(dir, max, sm, n2.last(), text);
        assert(oa + (om + ol) =~= (oa + om) + ol);
    }
}

// ───────────────────────── per-archive orchestration ─────────────────────────

/// Sum of a ledger's counts, capped at `u64::MAX`.
pub open spec fn rows_sum(rows: Seq<(Seq<u8>, u32)>) -> int
    decreases rows.len(),
{
    if rows.len() == 0 {
        0
    } else {
        rows_sum(rows.drop_last()) + rows.last().1 as int
    }
}

/// The counts summed, saturating at `u64::MAX`.
fn ledger_sum(led: &Ledger) -> (r: u64)
    ensures
        rows_sum(led.rows()) <= u64::MAX ==> r as int == rows_sum(led.rows()),
{
    let ghost rows = led.rows();
    let n = led.len();
    let mut sum: u64 = 0;
    let mut i: usize = 0;
    proof {
        assert(rows.take(0) =~= Seq::<(Seq<u8>, u32)>::empty());
        lemma_rows_sum_prefix_le(rows, 0);
    }
    while i < n
        invariant
            0 <= i <= n == rows.len(),
            rows == led.rows(),
            rows_sum(rows.take(i as int)) <= u64::MAX ==> sum as int == rows_sum(
                rows.take(i as int),
            ),
            sum as int <= rows_sum(rows.take(i as int)),
            rows_sum(rows.take(i as int)) <= rows_sum(rows),
        decreases n - i,
    {
        proof {
            assert(rows.take(i + 1).drop_last() =~= rows.take(i as int));
            assert(rows.take(i + 1).last() == rows[i as int]);
            lemma_rows_sum_prefix_le(rows, i + 1);
        }
        let c = led.count_at(i);
        if sum <= 0xFFFF_FFFF_FFFF_FFFFu64 - (c as u64) {
            sum = sum + c as u64;
        } else {
            sum = 0xFFFF_FFFF_FFFF_FFFFu64;
        }
        i += 1;
    }
    proof {
        assert(rows.take(n as int) =~= rows);
    }
    sum
}

/// A prefix never sums to more than the whole: the counts are
/// non-negative.
proof fn lemma_rows_sum_prefix_le(rows: Seq<(Seq<u8>, u32)>, i: int)
    requires
        0 <= i <= rows.len(),
    ensures
        rows_sum(rows.take(i)) <= rows_sum(rows),
    decreases rows.len() - i,
{
    if i < rows.len() {
        lemma_rows_sum_prefix_le(rows, i + 1);
        assert(rows.take(i + 1).drop_last() =~= rows.take(i));
        assert(rows.take(i + 1).last() == rows[i]);
    } else {
        assert(rows.take(i) =~= rows);
    }
}

/// What processing one archive produced: whether it was skipped as
/// already processed, every append operation for the player artifacts,
/// and how many entries were extracted.
pub struct ArchiveOutcome {
    pub skipped: bool,
    pub writes: Vec<FlushEntry>,
    pub extracted: u64,
}

/// The append operations a whole archive produces: the extraction
/// pass's own flushes followed by the final unconditional flush.
pub open spec fn archive_ops(input: Seq<u8>, dir: Seq<u8>, max: nat, cfg: FilterCfg, qual: Map<Seq<u8>, int>) -> Seq<(Seq<u8>, Seq<u8>)> {
    let p2 = pass2_from(
        split_lines_spec(input),
        0,
        BufState { rows: Seq::empty(), size: 0 },
        dir,
        max,
        cfg,
        qual,
    );
    p2.outs + crate::writer::flush_of(dir, p2.st.rows)
}

/// Drive one archive through the pipeline: skip if already processed;
/// otherwise count, derive the qualifying set, extract and write when it
/// is non-empty, commit the month's counts, and mark the archive
/// processed.  Cancellation before the commit leaves the index exactly
/// as it was.
pub fn process_archive<S: EventSink>(
    db: &mut Database,
    config: &Config,
    url: &Vec<u8>,
    input: &Vec<u8>,
    sink: &S,
) -> (r: Result<ArchiveOutcome, PipelineError>)
    requires
        old(db).wf(),
        input@.len() <= MAX_INPUT_BYTES,
        config.write_buffer_max_bytes as int + 3 * (input@.len() as int) + 2 <= usize::MAX as int,
    ensures
        ({
            let led = pass1_map(input@, config.filter_view());
            let qual = filter_min(led, config.min_monthly_games as int);
            let dir = config.output_dir@ + crate::config::lit_players_seg();
            match r {
            Ok(o) => {
                &&& final(db).wf()
                &&& (old(db).processed().contains(url@) ==> o.skipped && final(db).totals()
                    == old(db).totals() && final(db).monthly() == old(db).monthly() && final(db).processed() == old(db).processed() && o.writes@.len() == 0 && o.extracted == 0)
                &&& (!old(db).processed().contains(url@) ==> {
                    &&& !o.skipped
                    &&& final(db).processed() == old(db).processed().insert(url@)
                    &&& (qual == Map::<Seq<u8>, int>::empty() ==> final(db).totals() == old(db).totals() && final(db).monthly() == old(db).monthly() && o.writes@.len() == 0
                        && o.extracted == 0)
                    &&& (qual != Map::<Seq<u8>, int>::empty() ==> final(db).totals()
                        == crate::database::merge_add(old(db).totals(), qual) && final(db).monthly() == crate::database::month_replace(
                        old(db).monthly(),
                        month_of(url@),
                        qual,
                    ) && entries_view(o.writes@) == archive_ops(
                        input@,
                        dir,
                        config.write_buffer_max_bytes as nat,
                        config.filter_view(),
                        qual,
                    ) && o.extracted as nat == pass2_from(
                        split_lines_spec(input@),
                        0,
                        (BufState { rows: Seq::empty(), size: 0 }),
                        dir,
                        config.write_buffer_max_bytes as nat,
                        config.filter_view(),
                        qual,
                    ).count)
                })
            },
            Err(e) => {
                &&& final(db).wf()
                &&& final(db).processed() == old(db).processed()
                &&& (e is Cancelled ==> final(db).totals() == old(db).totals() && final(db).monthly() == old(db).monthly())
                &&& ({
                    ||| (final(db).totals() == old(db).totals() && final(db).monthly() == old(db).monthly())
                    ||| (final(db).totals() == crate::database::merge_add(old(db).totals(), qual)
                        && final(db).monthly() == crate::database::month_replace(
                        old(db).monthly(),
                        month_of(url@),
                        qual,
                    ))
                })
            },
        }
        }),
{
    match db.is_dataset_processed(url) {
        Ok(true) => {
            let name = after_last(url, 47);
            sink.send(UiEvent::DatasetSkipped { name });
            return Ok(ArchiveOutcome { skipped: true, writes: Vec::new(), extracted: 0 });
        },
        Ok(false) => {},
        Err(e) => {
            return Err(e);
        },
    }
    let month = extract_month(url);
    sink.send(UiEvent::Pass1Started);
    let (led, scanned, valid) = match pass1_count(input, config, sink) {
        Ok(out) => out,
        Err(e) => {
            return Err(e);
        },
    };
    let qualifying = led.filter_at_least(config.min_monthly_games);
    let qualifying_games = ledger_sum(&qualifying);
    sink.send(
        UiEvent::Pass1Complete {
            total_scanned: scanned,
            valid_games: valid,
            qualifying_players: qualifying.len() as u64,
            qualifying_games,
        },
    );
    if let Err(e) = sink.check() {
        return Err(e);
    }
    let mut writes: Vec<FlushEntry> = Vec::new();
    let mut extracted: u64 = 0;
    let ghost qual = qualifying.counts();
    if qualifying.len() > 0 {
        proof {
            crate::ledger::lemma_assoc_value(qualifying.rows(), 0);
            assert(qual.contains_key(qualifying.rows()[0].0));
            assert(!Map::<Seq<u8>, int>::empty().contains_key(qualifying.rows()[0].0));
        }
        sink.send(UiEvent::Pass2Started);
        let mut writer = PlayerWriter::new(config.players_dir(), config.write_buffer_max_bytes);
        match pass2_extract(input, config, &qualifying, &mut writer, sink) {
            Ok((n, es)) => {
                extracted = n;
                writes = es;
            },
            Err(e) => {
                return Err(e);
            },
        }
        match writer.flush_all() {
            Ok(es2) => {
                append_entries(&mut writes, es2);
            },
            Err(e) => {
                return Err(e);
            },
        }
        sink.send(UiEvent::Pass2Complete { total_extracted: extracted });
        if let Err(e) = db.update_player_counts(&month, &qualifying) {
            return Err(e);
        }
        proof {
            crate::database::lemma_apply_totals_is_merge(old(db).totals(), qualifying.rows());
            crate::database::lemma_apply_monthly_is_replace(
                old(db).monthly(),
                month@,
                qualifying.rows(),
            );
        }
    } else {
        proof {
            assert(qualifying.rows().len() == 0);
            assert(qual =~= Map::<Seq<u8>, int>::empty());
        }
    }
    match db.mark_dataset_processed(url) {
        Ok(_) => {},
        Err(e) => {
            return Err(e);
        },
    }
    Ok(ArchiveOutcome { skipped: false, writes, extracted })
}

/// What the pruning pass decided: the players to remove with their
/// artifact paths, how many index rows were removed, and how many
/// qualifying players remain.
pub struct PruneOutcome {
    pub names: Vec<Vec<u8>>,
    pub paths: Vec<Vec<u8>>,
    pub removed: usize,
    pub remaining: i64,
}

/// The final cross-archive pruning pass: report every player whose
/// cumulative total is below the threshold together with the artifact
/// path to delete, remove their rows from the index, and count the
/// qualifying players that remain.
#[verifier::rlimit(30)]
pub fn prune_players<S: EventSink>(db: &mut Database, config: &Config, sink: &S) -> (r: Result<
    PruneOutcome,
    PipelineError,
>)
    requires
        old(db).wf(),
    ensures
        (match r {
            Ok(o) => {
                let min = config.min_total_games as int;
                &&& final(db).wf()
                &&& lists_names_below(old(db).totals(), min, o.names.deep_view())
                &&& o.paths.deep_view().len() == o.names.deep_view().len()
                &&& (forall|i: int|
                    0 <= i < o.names.deep_view().len() ==> #[trigger] o.paths.deep_view()[i]
                        == crate::writer::artifact_path(
                        config.output_dir@ + crate::config::lit_players_seg(),
                        o.names.deep_view()[i],
                    ))
                &&& final(db).totals() == crate::database::totals_pruned(old(db).totals(), min)
                &&& final(db).monthly() == crate::database::monthly_pruned(
                    old(db).monthly(),
                    old(db).totals(),
                    min,
                )
                &&& final(db).processed() == old(db).processed()
                &&& o.removed as int == old(db).totals().dom().filter(
                    |k: Seq<u8>| old(db).totals()[k] < min,
                ).len()
                &&& o.remaining as int == final(db).totals().dom().filter(
                    |k: Seq<u8>| final(db).totals()[k] >= min,
                ).len()
            },
            Err(e) => e is Storage && final(db).wf() && final(db).processed() == old(db).processed() && ({
                ||| (final(db).totals() == old(db).totals() && final(db).monthly() == old(db).monthly())
                ||| (final(db).totals() == crate::database::totals_pruned(
                    old(db).totals(),
                    config.min_total_games as int,
                ) && final(db).monthly() == crate::database::monthly_pruned(
                    old(db).monthly(),
                    old(db).totals(),
                    config.min_total_games as int,
                ))
            }),
        }),
{
    let names = match db.get_players_below_total(config.min_total_games) {
        Ok(v) => v,
        Err(e) => {
            return Err(e);
        },
    };
    sink.send(UiEvent::PruneStarted { to_remove: names.len() as u64 });
    let helper = PlayerWriter::new(config.players_dir(), 0);
    let mut paths: Vec<Vec<u8>> = Vec::new();
    let n = names.len();
    let mut i: usize = 0;
    while i < n
        invariant
            0 <= i <= n == names.deep_view().len(),
            helper.dir_spec() == config.output_dir@ + crate::config::lit_players_seg(),
            paths.deep_view().len() == i,
            forall|k: int|
                0 <= k < i ==> #[trigger] paths.deep_view()[k] == crate::writer::artifact_path(
                    helper.dir_spec(),
                    names.deep_view()[k],
                ),
        decreases n - i,
    {
        let p = helper.player_path(&names[i]);
        let ghost p0 = paths.deep_view();
        paths.push(p);
        proof {
            assert(names.deep_view()[i as int] =~= names@[i as int]@);
            assert(p@ == crate::writer::artifact_path(
                helper.dir_spec(),
                names.deep_view()[i as int],
            ));
            assert(paths.deep_view() =~~= p0.push(
                crate::writer::artifact_path(helper.dir_spec(), names.deep_view()[i as int]),
            ));
        }
        i += 1;
    }
    let removed = match db.remove_players_below_total(config.min_total_games) {
        Ok(k) => k,
        Err(e) => {
            return Err(e);
        },
    };
    let remaining = match db.get_total_qualifying_players(config.min_total_games) {
        Ok(k) => k,
        Err(e) => {
            return Err(e);
        },
    };
    sink.send(UiEvent::PruneComplete { remaining: remaining as u64, removed: removed as u64 });
    Ok(PruneOutcome { names, paths, removed, remaining })
}

} // verus!
