//! Streaming parser for line-oriented game records.
//!
//! A record is a block of header lines of the shape `[Key "Value"]`,
//! optionally followed by move-text lines; records are separated by blank
//! lines or by the start of the next header block.  One state machine
//! (`scan`) defines the records of a line sequence; it is exposed two
//! ways, proved equivalent: `RecordStream` is fed one line at a time and
//! holds only the record in progress, so an archive of any size parses
//! in memory bounded per record; `PgnParser` pulls records from a byte
//! buffer already in memory, with a metadata-only and a full-text entry
//! point.

use vstd::prelude::*;

verus! {

use crate::ledger::append_bytes;

/// Largest accepted input size in bytes.  Keeping the input well below
/// `u32::MAX` lets per-record half-move counts and per-player game counts
/// (at most two per record) fit in `u32` without overflow.
pub const MAX_INPUT_BYTES: usize = 0x7FFF_0000;

// ───────────────────────── byte-level specifications ─────────────────────────

/// ASCII whitespace, as `str::trim` treats it for ASCII text.
pub open spec fn is_ws(b: u8) -> bool {
    b == 32 || b == 9 || b == 10 || b == 13 || b == 11 || b == 12
}

pub open spec fn trim_start_spec(s: Seq<u8>) -> Seq<u8>
    decreases s.len(),
{
    if s.len() == 0 {
        s
    } else if is_ws(s[0]) {
        trim_start_spec(s.drop_first())
    } else {
        s
    }
}

pub open spec fn trim_end_spec(s: Seq<u8>) -> Seq<u8>
    decreases s.len(),
{
    if s.len() == 0 {
        s
    } else if is_ws(s.last()) {
        trim_end_spec(s.drop_last())
    } else {
        s
    }
}

/// Both ends trimmed of ASCII whitespace.
pub open spec fn trim_spec(s: Seq<u8>) -> Seq<u8> {
    trim_end_spec(trim_start_spec(s))
}

/// First index at or after `i` holding byte `b`, or `s.len()` if none.
pub open spec fn first_idx(s: Seq<u8>, b: u8, i: int) -> int
    decreases s.len() - i when 0 <= i <= s.len()
{
    if i >= s.len() {
        s.len() as int
    } else if s[i] == b {
        i
    } else {
        first_idx(s, b, i + 1)
    }
}

/// The clock-annotation marker whose occurrences count half-moves.
pub open spec fn clk_marker() -> Seq<u8> {
    seq![91u8, 37u8, 99u8, 108u8, 107u8]
}

pub open spec fn is_clk_at(s: Seq<u8>, i: int) -> bool {
    0 <= i && i + 5 <= s.len() && s.subrange(i, i + 5) == clk_marker()
}

/// Number of positions at or after `i` where the clock marker starts.
/// The marker cannot overlap itself, so this equals the number of
/// non-overlapping occurrences.
pub open spec fn clk_from(s: Seq<u8>, i: int) -> nat
    decreases s.len() - i when 0 <= i
{
    if i + 5 > s.len() {
        0
    } else {
        (if is_clk_at(s, i) {
            1nat
        } else {
            0nat
        }) + clk_from(s, i + 1)
    }
}

pub open spec fn clk_count(s: Seq<u8>) -> nat {
    clk_from(s, 0)
}

/// A line is a header iff, after trimming, it starts with `[`, ends with
/// `]` and contains a double quote.
pub open spec fn is_header(t: Seq<u8>) -> bool {
    &&& t.len() >= 2
    &&& t[0] == 91
    &&& t[t.len() - 1] == 93
    &&& exists|i: int| 0 <= i < t.len() && t[i] == 34
}

// ───────────────────────── header field extraction ───────────────────────────

/// The four tracked header fields of a record.
pub struct FieldsS {
    pub event: Seq<u8>,
    pub white: Seq<u8>,
    pub black: Seq<u8>,
    pub tc: Seq<u8>,
}

pub open spec fn empty_fields() -> FieldsS {
    FieldsS { event: Seq::empty(), white: Seq::empty(), black: Seq::empty(), tc: Seq::empty() }
}

pub open spec fn key_event() -> Seq<u8> {
    seq![69u8, 118u8, 101u8, 110u8, 116u8]
}

pub open spec fn key_white() -> Seq<u8> {
    seq![87u8, 104u8, 105u8, 116u8, 101u8]
}

pub open spec fn key_black() -> Seq<u8> {
    seq![66u8, 108u8, 97u8, 99u8, 107u8]
}

pub open spec fn key_time_control() -> Seq<u8> {
    seq![84u8, 105u8, 109u8, 101u8, 67u8, 111u8, 110u8, 116u8, 114u8, 111u8, 108u8]
}

/// Effect of one trimmed header line `t` on the tracked fields: the text
/// between the brackets is split at the first space into a key and a
/// quoted value; recognised keys replace their field, anything else is
/// ignored.
pub open spec fn header_update(f: FieldsS, t: Seq<u8>) -> FieldsS
    recommends
        is_header(t),
{
    let inner = t.subrange(1, t.len() - 1);
    let sp = first_idx(inner, 32, 0);
    if sp == inner.len() {
        f
    } else {
        let key = inner.subrange(0, sp);
        let rest = trim_spec(inner.subrange(sp + 1, inner.len() as int));
        if rest.len() >= 2 && rest[0] == 34 && rest[rest.len() - 1] == 34 {
            let v = rest.subrange(1, rest.len() - 1);
            if key == key_event() {
                FieldsS { event: v, ..f }
            } else if key == key_white() {
                FieldsS { white: v, ..f }
            } else if key == key_black() {
                FieldsS { black: v, ..f }
            } else if key == key_time_control() {
                FieldsS { tc: v, ..f }
            } else {
                f
            }
        } else {
            f
        }
    }
}

// ───────────────────────── line splitting ────────────────────────────────────

/// Trailing carriage returns removed; splitting on `\n` leaves them behind
/// on lines that ended in `\r\n`.
pub open spec fn strip_cr(s: Seq<u8>) -> Seq<u8>
    decreases s.len(),
{
    if s.len() == 0 {
        s
    } else if s.last() == 13 {
        strip_cr(s.drop_last())
    } else {
        s
    }
}

/// `first_idx` stays within `[i, s.len()]`, lands on `b` when it is short
/// of the end, and skips no earlier occurrence.
pub proof fn lemma_first_idx_bounds(s: Seq<u8>, b: u8, i: int)
    requires
        0 <= i <= s.len(),
    ensures
        i <= first_idx(s, b, i) <= s.len(),
        first_idx(s, b, i) < s.len() ==> s[first_idx(s, b, i)] == b,
        forall|k: int| i <= k < first_idx(s, b, i) ==> s[k] != b,
    decreases s.len() - i,
{
    if i < s.len() && s[i] != b {
        lemma_first_idx_bounds(s, b, i + 1);
    }
}

/// The byte stream cut at every `\n`, each piece then stripped of trailing
/// carriage returns.  A trailing `\n` does not create an empty final line,
/// matching a reader that reports end of input.
pub open spec fn split_lines_spec(s: Seq<u8>) -> Seq<Seq<u8>>
    decreases s.len(),
    via split_lines_decreases
{
    if s.len() == 0 {
        Seq::empty()
    } else {
        let j = first_idx(s, 10, 0);
        if j == s.len() {
            seq![strip_cr(s)]
        } else {
            seq![strip_cr(s.subrange(0, j))] + split_lines_spec(s.subrange(j + 1, s.len() as int))
        }
    }
}

#[via_fn]
proof fn split_lines_decreases(s: Seq<u8>) {
    if s.len() != 0 {
        lemma_first_idx_bounds(s, 10, 0);
    }
}

/// A line as the splitter produces it: free of newlines and of trailing
/// carriage returns.
pub open spec fn normalized_line(l: Seq<u8>) -> bool {
    (forall|i: int| 0 <= i < l.len() ==> l[i] != 10) && (l.len() > 0 ==> l[l.len() - 1] != 13)
}

pub open spec fn all_normalized(lines: Seq<Seq<u8>>) -> bool {
    forall|k: int| 0 <= k < lines.len() ==> #[trigger] normalized_line(lines[k])
}

/// Total byte count of a line sequence.
pub open spec fn total_len(lines: Seq<Seq<u8>>) -> nat
    decreases lines.len(),
{
    if lines.len() == 0 {
        0
    } else {
        total_len(lines.drop_last()) + lines.last().len()
    }
}

// ───────────────────────── the record state machine ──────────────────────────

/// Position of the parser inside the record structure.
pub enum ScanPhase {
    /// Outside any record.
    Between,
    /// Inside the header block of a record.
    Headers,
    /// Inside the move text of a record.
    Moves,
}

/// A record in the making: tracked fields, half-move count, and the
/// newline-normalized text consumed so far (used only by the full-text
/// entry point).
pub struct RecAcc {
    pub f: FieldsS,
    pub half: nat,
    pub raw: Seq<u8>,
}

pub open spec fn empty_acc() -> RecAcc {
    RecAcc { f: empty_fields(), half: 0, raw: Seq::empty() }
}

/// Result of running the state machine until a record completes or the
/// input ends: the record, if one was in progress, and the index of the
/// first unconsumed line.
pub struct ScanOut {
    pub rec: Option<RecAcc>,
    pub next: int,
}

/// One record's worth of the state machine, starting at line `i` in phase
/// `st` with accumulator `acc`.  A blank line ends the move section; a
/// header line while in the move section ends the record and is left
/// unconsumed for the next record; at end of input an in-progress record
/// is still produced.
pub open spec fn scan(lines: Seq<Seq<u8>>, i: int, acc: RecAcc, st: ScanPhase) -> ScanOut
    decreases lines.len() - i when 0 <= i <= lines.len()
{
    if i >= lines.len() {
        ScanOut { rec: if st is Between { None } else { Some(acc) }, next: i }
    } else {
        let l = lines[i];
        let t = trim_spec(l);
        if t.len() == 0 {
            match st {
                ScanPhase::Between => scan(lines, i + 1, acc, ScanPhase::Between),
                ScanPhase::Headers => scan(
                    lines,
                    i + 1,
                    RecAcc { raw: acc.raw.push(10), ..acc },
                    ScanPhase::Moves,
                ),
                ScanPhase::Moves => ScanOut {
                    rec: Some(RecAcc { raw: acc.raw.push(10), ..acc }),
                    next: i + 1,
                },
            }
        } else if is_header(t) {
            match st {
                ScanPhase::Moves => ScanOut { rec: Some(acc), next: i },
                _ => scan(
                    lines,
                    i + 1,
                    RecAcc { f: header_update(acc.f, t), half: acc.half, raw: acc.raw + l + seq![10u8] },
                    ScanPhase::Headers,
                ),
            }
        } else {
            match st {
                ScanPhase::Between => scan(lines, i + 1, acc, ScanPhase::Between),
                ScanPhase::Headers => scan(
                    lines,
                    i + 1,
                    RecAcc {
                        f: acc.f,
                        half: acc.half + clk_count(t),
                        raw: acc.raw.push(10) + l + seq![10u8],
                    },
                    ScanPhase::Moves,
                ),
                ScanPhase::Moves => scan(
                    lines,
                    i + 1,
                    RecAcc { half: acc.half + clk_count(t), raw: acc.raw + l + seq![10u8], ..acc },
                    ScanPhase::Moves,
                ),
            }
        }
    }
}

/// The state machine started fresh at line `i`.
pub open spec fn scan0(lines: Seq<Seq<u8>>, i: int) -> ScanOut {
    scan(lines, i, empty_acc(), ScanPhase::Between)
}

// ───────────────────────── executable byte helpers ───────────────────────────

fn is_ws_exec(b: u8) -> (r: bool)
    ensures
        r == is_ws(b),
{
    b == 32 || b == 9 || b == 10 || b == 13 || b == 11 || b == 12
}

/// `first_idx` is the unique index with nothing matching before it.
proof fn lemma_first_idx_char(s: Seq<u8>, b: u8, i: int, j: int)
    requires
        0 <= i <= j <= s.len(),
        forall|k: int| i <= k < j ==> s[k] != b,
        j < s.len() ==> s[j] == b,
    ensures
        first_idx(s, b, i) == j,
    decreases j - i,
{
    if i < j {
        lemma_first_idx_char(s, b, i + 1, j);
    }
}

/// Dropping a fully-whitespace prefix is what `trim_start_spec` does.
proof fn lemma_trim_start_at(s: Seq<u8>, a: int)
    requires
        0 <= a <= s.len(),
        forall|k: int| 0 <= k < a ==> is_ws(s[k]),
        a < s.len() ==> !is_ws(s[a]),
    ensures
        trim_start_spec(s) == s.subrange(a, s.len() as int),
    decreases a,
{
    if a == 0 {
        assert(trim_start_spec(s) =~= s.subrange(0, s.len() as int));
    } else {
        let s1 = s.drop_first();
        assert(forall|k: int| 0 <= k < a - 1 ==> is_ws(s1[k]));
        lemma_trim_start_at(s1, a - 1);
        assert(s1.subrange(a - 1, s1.len() as int) =~= s.subrange(a, s.len() as int));
    }
}

/// Dropping a fully-whitespace suffix is what `trim_end_spec` does.
proof fn lemma_trim_end_at(s: Seq<u8>, e: int)
    requires
        0 <= e <= s.len(),
        forall|k: int| e <= k < s.len() ==> is_ws(s[k]),
        e > 0 ==> !is_ws(s[e - 1]),
    ensures
        trim_end_spec(s) == s.subrange(0, e),
    decreases s.len() - e,
{
    if e == s.len() {
        assert(trim_end_spec(s) =~= s.subrange(0, e));
    } else {
        let s1 = s.drop_last();
        assert(forall|k: int| e <= k < s1.len() ==> is_ws(s1[k]));
        lemma_trim_end_at(s1, e);
        assert(s1.subrange(0, e) =~= s.subrange(0, e));
    }
}

/// Copy of `l[s..e]`.
fn copy_range(l: &Vec<u8>, s: usize, e: usize) -> (r: Vec<u8>)
    requires
        s <= e <= l@.len(),
    ensures
        r@ == l@.subrange(s as int, e as int),
{
    let mut r: Vec<u8> = Vec::new();
    let mut i: usize = s;
    while i < e
        invariant
            s <= i <= e <= l@.len(),
            r@ == l@.subrange(s as int, i as int),
        decreases e - i,
    {
        r.push(l[i]);
        assert(l@.subrange(s as int, i + 1) =~= l@.subrange(s as int, i as int).push(l@[i as int]));
        i += 1;
    }
    r
}

/// The line with ASCII whitespace trimmed from both ends.
fn trim_line(l: &Vec<u8>) -> (t: Vec<u8>)
    ensures
        t@ == trim_spec(l@),
        t@.len() <= l@.len(),
{
    let n = l.len();
    let mut a: usize = 0;
    while a < n && is_ws_exec(l[a])
        invariant
            0 <= a <= n == l@.len(),
            forall|k: int| 0 <= k < a ==> is_ws(l@[k]),
        decreases n - a,
    {
        a += 1;
    }
    let mut e: usize = n;
    while e > a && is_ws_exec(l[e - 1])
        invariant
            a <= e <= n == l@.len(),
            forall|k: int| e <= k < n ==> is_ws(l@[k]),
        decreases e,
    {
        e -= 1;
    }
    proof {
        lemma_trim_start_at(l@, a as int);
        let mid = l@.subrange(a as int, l@.len() as int);
        if e == a {
            lemma_trim_end_at(mid, 0);
        } else {
            assert(forall|k: int| e - a <= k < mid.len() ==> is_ws(mid[k]));
            assert(!is_ws(mid[e - a - 1]));
            lemma_trim_end_at(mid, e - a);
        }
        assert(mid.subrange(0, e - a) =~= l@.subrange(a as int, e as int));
    }
    copy_range(l, a, e)
}

/// Occurrences of the clock marker in `t`.
pub fn count_clk(t: &Vec<u8>) -> (r: u32)
    requires
        t@.len() < 0xFFFF_FFFF,
    ensures
        r as nat == clk_count(t@),
        r as nat <= t@.len(),
{
    let n = t.len();
    let mut cnt: u32 = 0;
    let mut i: usize = 0;
    if n < 5 {
        assert(clk_from(t@, 0) == 0);
        return 0;
    }
    while i <= n - 5
        invariant
            5 <= n == t@.len() < 0xFFFF_FFFF,
            0 <= i <= n - 4,
            cnt as nat + clk_from(t@, i as int) == clk_count(t@),
            cnt as nat <= i,
        decreases n - i,
    {
        let hit = t[i] == 91 && t[i + 1] == 37 && t[i + 2] == 99 && t[i + 3] == 108 && t[i + 4]
            == 107;
        proof {
            if hit {
                assert(t@.subrange(i as int, i + 5) =~= clk_marker());
            } else {
                assert(t@.subrange(i as int, i + 5) != clk_marker()) by {
                    if t@.subrange(i as int, i + 5) == clk_marker() {
                        assert(t@.subrange(i as int, i + 5)[0] == 91u8);
                        assert(t@.subrange(i as int, i + 5)[1] == 37u8);
                        assert(t@.subrange(i as int, i + 5)[2] == 99u8);
                        assert(t@.subrange(i as int, i + 5)[3] == 108u8);
                        assert(t@.subrange(i as int, i + 5)[4] == 107u8);
                    }
                }
            }
        }
        if hit {
            cnt = cnt + 1;
        }
        i += 1;
    }
    assert(clk_from(t@, i as int) == 0);
    cnt
}

/// Whether the (already trimmed) line is a header line.
pub fn is_header_line(t: &Vec<u8>) -> (r: bool)
    ensures
        r == is_header(t@),
{
    let n = t.len();
    if n < 2 || t[0] != 91 || t[n - 1] != 93 {
        return false;
    }
    let mut i: usize = 0;
    while i < n
        invariant
            0 <= i <= n == t@.len(),
            n >= 2,
            t@[0] == 91,
            t@[n - 1] == 93,
            forall|k: int| 0 <= k < i ==> t@[k] != 34,
        decreases n - i,
    {
        if t[i] == 34 {
            return true;
        }
        i += 1;
    }
    false
}

// ───────────────────────── header extraction (exec) ─────────────────────────

fn make_key_event() -> (r: Vec<u8>)
    ensures
        r@ == key_event(),
{
    let mut v: Vec<u8> = Vec::new();
    v.push(69);
    v.push(118);
    v.push(101);
    v.push(110);
    v.push(116);
    assert(v@ =~= key_event());
    v
}

fn make_key_white() -> (r: Vec<u8>)
    ensures
        r@ == key_white(),
{
    let mut v: Vec<u8> = Vec::new();
    v.push(87);
    v.push(104);
    v.push(105);
    v.push(116);
    v.push(101);
    assert(v@ =~= key_white());
    v
}

fn make_key_black() -> (r: Vec<u8>)
    ensures
        r@ == key_black(),
{
    let mut v: Vec<u8> = Vec::new();
    v.push(66);
    v.push(108);
    v.push(97);
    v.push(99);
    v.push(107);
    assert(v@ =~= key_black());
    v
}

fn make_key_time_control() -> (r: Vec<u8>)
    ensures
        r@ == key_time_control(),
{
    let mut v: Vec<u8> = Vec::new();
    v.push(84);
    v.push(105);
    v.push(109);
    v.push(101);
    v.push(67);
    v.push(111);
    v.push(110);
    v.push(116);
    v.push(114);
    v.push(111);
    v.push(108);
    assert(v@ =~= key_time_control());
    v
}

/// Whether `t[s..e]` equals `k`.
fn region_eq(t: &Vec<u8>, s: usize, e: usize, k: &Vec<u8>) -> (r: bool)
    requires
        s <= e <= t@.len(),
    ensures
        r == (t@.subrange(s as int, e as int) == k@),
{
    let ghost reg = t@.subrange(s as int, e as int);
    if e - s != k.len() {
        assert(reg != k@) by {
            assert(reg.len() != k@.len());
        }
        return false;
    }
    let mut i: usize = 0;
    while i < k.len()
        invariant
            s <= e <= t@.len(),
            e - s == k@.len(),
            0 <= i <= k@.len(),
            reg == t@.subrange(s as int, e as int),
            forall|j: int| 0 <= j < i ==> reg[j] == k@[j],
        decreases k@.len() - i,
    {
        if t[s + i] != k[i] {
            assert(reg[i as int] != k@[i as int]);
            return false;
        }
        i += 1;
    }
    assert(reg =~= k@);
    true
}

/// Parse one trimmed header line `[Key "Value"]` and update the matching
/// tracked field; unrecognised keys and malformed lines change nothing.
pub fn extract_header_into(
    t: &Vec<u8>,
    event: &mut Vec<u8>,
    white: &mut Vec<u8>,
    black: &mut Vec<u8>,
    time_control: &mut Vec<u8>,
)
    requires
        is_header(t@),
    ensures
        ({
            let f0 = FieldsS {
                event: old(event)@,
                white: old(white)@,
                black: old(black)@,
                tc: old(time_control)@,
            };
            let f1 = header_update(f0, t@);
            final(event)@ == f1.event && final(white)@ == f1.white && final(black)@ == f1.black
                && final(time_control)@ == f1.tc
        }),
{
    let ghost f0 = FieldsS {
        event: event@,
        white: white@,
        black: black@,
        tc: time_control@,
    };
    let n = t.len();
    let ghost inner = t@.subrange(1, n - 1);
    // find the first space strictly inside the brackets
    let mut sp: usize = 1;
    while sp < n - 1 && t[sp] != 32
        invariant
            2 <= n == t@.len(),
            1 <= sp <= n - 1,
            forall|k: int| 1 <= k < sp ==> t@[k] != 32,
        decreases n - sp,
    {
        sp += 1;
    }
    proof {
        assert(forall|k: int| 0 <= k < sp - 1 ==> inner[k] == t@[k + 1] && inner[k] != 32);
        if sp < n - 1 {
            assert(inner[sp - 1] == t@[sp as int]);
        }
        lemma_first_idx_char(inner, 32, 0, sp - 1);
    }
    if sp == n - 1 {
        // no space: nothing recognised
        assert(first_idx(inner, 32, 0) == inner.len());
        return ;
    }
    // rest region is (sp, n-1); trim it
    let mut a: usize = sp + 1;
    while a < n - 1 && is_ws_exec(t[a])
        invariant
            2 <= n == t@.len(),
            sp + 1 <= a <= n - 1,
            forall|k: int| sp + 1 <= k < a ==> is_ws(t@[k]),
        decreases n - a,
    {
        a += 1;
    }
    let mut e: usize = n - 1;
    while e > a && is_ws_exec(t[e - 1])
        invariant
            2 <= n == t@.len(),
            a <= e <= n - 1,
            forall|k: int| e <= k < n - 1 ==> is_ws(t@[k]),
        decreases e,
    {
        e -= 1;
    }
    let ghost rest_raw = inner.subrange(sp as int, inner.len() as int);
    proof {
        assert(forall|k: int| 0 <= k < rest_raw.len() ==> rest_raw[k] == t@[k + sp + 1]);
        lemma_trim_start_at(rest_raw, a - sp - 1);
        let mid = rest_raw.subrange(a - sp - 1, rest_raw.len() as int);
        assert(forall|k: int| 0 <= k < mid.len() ==> mid[k] == t@[k + a]);
        if e == a {
            lemma_trim_end_at(mid, 0);
        } else {
            assert(!is_ws(mid[e - a - 1]));
            lemma_trim_end_at(mid, e - a);
        }
        assert(mid.subrange(0, e - a) =~= t@.subrange(a as int, e as int));
        assert(trim_spec(rest_raw) == t@.subrange(a as int, e as int));
    }
    let ghost rest = trim_spec(rest_raw);
    if e - a < 2 || t[a] != 34 || t[e - 1] != 34 {
        // value is not quoted: nothing recognised
        proof {
            assert(rest.len() == e - a);
            if rest.len() >= 2 {
                assert(rest[0] == t@[a as int]);
                assert(rest[rest.len() - 1] == t@[e - 1]);
            }
        }
        return ;
    }
    assert(rest[0] == t@[a as int] && rest[rest.len() - 1] == t@[e - 1]);
    let v = copy_range(t, a + 1, e - 1);
    proof {
        assert(rest.subrange(1, rest.len() - 1) =~= t@.subrange(a + 1, e - 1));
        assert(inner.subrange(0, sp - 1) =~= t@.subrange(1, sp as int));
    }
    let ke = make_key_event();
    let kw = make_key_white();
    let kb = make_key_black();
    let kt = make_key_time_control();
    if region_eq(t, 1, sp, &ke) {
        *event = v;
    } else if region_eq(t, 1, sp, &kw) {
        *white = v;
    } else if region_eq(t, 1, sp, &kb) {
        *black = v;
    } else if region_eq(t, 1, sp, &kt) {
        *time_control = v;
    }
}

// ───────────────────────── line splitting (exec) ─────────────────────────────

/// Dropping a suffix of carriage returns is what `strip_cr` does.
proof fn lemma_strip_cr_at(s: Seq<u8>, e: int)
    requires
        0 <= e <= s.len(),
        forall|k: int| e <= k < s.len() ==> s[k] == 13,
        e > 0 ==> s[e - 1] != 13,
    ensures
        strip_cr(s) == s.subrange(0, e),
    decreases s.len() - e,
{
    if e == s.len() {
        assert(strip_cr(s) =~= s.subrange(0, e));
    } else {
        let s1 = s.drop_last();
        lemma_strip_cr_at(s1, e);
        assert(s1.subrange(0, e) =~= s.subrange(0, e));
    }
}

/// Every line the splitter yields is newline-free with no trailing
/// carriage return, and the lines together are no longer than the input.
pub proof fn lemma_split_lines_props(s: Seq<u8>)
    ensures
        all_normalized(split_lines_spec(s)),
        total_len(split_lines_spec(s)) <= s.len(),
        split_lines_spec(s).len() <= s.len(),
    decreases s.len(),
{
    if s.len() != 0 {
        lemma_first_idx_bounds(s, 10, 0);
        let j = first_idx(s, 10, 0);
        if j == s.len() {
            lemma_strip_props(s);
            assert(seq![strip_cr(s)].drop_last() =~= Seq::<Seq<u8>>::empty());
            assert(total_len(seq![strip_cr(s)]) == total_len(
                Seq::<Seq<u8>>::empty(),
            ) + strip_cr(s).len());
            assert(split_lines_spec(s) == seq![strip_cr(s)]);
            assert(forall|k: int|
                0 <= k < split_lines_spec(s).len() ==> #[trigger] normalized_line(
                    split_lines_spec(s)[k],
                ));
        } else {
            let head = s.subrange(0, j);
            let tail = s.subrange(j + 1, s.len() as int);
            lemma_strip_props(head);
            lemma_split_lines_props(tail);
            let rest = split_lines_spec(tail);
            lemma_total_len_prepend(strip_cr(head), rest);
            assert(split_lines_spec(s) == seq![strip_cr(head)] + rest);
            assert(forall|k: int|
                1 <= k < (seq![strip_cr(head)] + rest).len() ==> (seq![strip_cr(head)] + rest)[k]
                    == rest[k - 1]);
            assert(forall|k: int|
                0 <= k < split_lines_spec(s).len() ==> #[trigger] normalized_line(
                    split_lines_spec(s)[k],
                ));
        }
    }
}

/// `strip_cr` keeps a newline-free sequence newline-free, removes any
/// trailing carriage return, and never grows its input.
proof fn lemma_strip_props(x: Seq<u8>)
    ensures
        (forall|k: int| 0 <= k < x.len() ==> x[k] != 10) ==> normalized_line(strip_cr(x)),
        strip_cr(x).len() <= x.len(),
    decreases x.len(),
{
    if x.len() > 0 && x.last() == 13 {
        lemma_strip_props(x.drop_last());
    }
}

/// Total length distributes over prepending one line.
proof fn lemma_total_len_prepend(l: Seq<u8>, rest: Seq<Seq<u8>>)
    ensures
        total_len(seq![l] + rest) == l.len() + total_len(rest),
    decreases rest.len(),
{
    if rest.len() == 0 {
        assert(seq![l] + rest =~= seq![l]);
        assert(seq![l].drop_last() =~= Seq::<Seq<u8>>::empty());
        assert(total_len(seq![l]) == total_len(Seq::<Seq<u8>>::empty()) + l.len());
    } else {
        let joined = seq![l] + rest;
        assert(joined.drop_last() =~= seq![l] + rest.drop_last());
        lemma_total_len_prepend(l, rest.drop_last());
        assert(joined.last() == rest.last());
    }
}

/// Position of the first `b` at or after `start`, or the length if none.
fn find_byte_from(input: &Vec<u8>, start: usize, b: u8) -> (j: usize)
    requires
        start <= input@.len(),
    ensures
        start <= j <= input@.len(),
        forall|k: int| start <= k < j ==> input@[k] != b,
        j < input@.len() ==> input@[j as int] == b,
{
    let n = input.len();
    let mut j: usize = start;
    while j < n && input[j] != b
        invariant
            start <= j <= n == input@.len(),
            forall|k: int| start <= k < j ==> input@[k] != b,
        decreases n - j,
    {
        j += 1;
    }
    j
}

/// The input cut into newline-free lines; see `split_lines_spec`.
pub fn split_lines(input: &Vec<u8>) -> (r: Vec<Vec<u8>>)
    ensures
        r.deep_view() == split_lines_spec(input@),
{
    let n = input.len();
    let mut out: Vec<Vec<u8>> = Vec::new();
    let mut cur: usize = 0;
    proof {
        assert(input@.subrange(0, n as int) =~= input@);
        assert(out.deep_view() =~= Seq::<Seq<u8>>::empty());
    }
    while cur < n
        invariant
            0 <= cur <= n == input@.len(),
            split_lines_spec(input@) =~= out.deep_view() + split_lines_spec(
                input@.subrange(cur as int, n as int),
            ),
        decreases n - cur,
    {
        let ghost suffix = input@.subrange(cur as int, n as int);
        let ghost out0 = out.deep_view();
        let j = find_byte_from(input, cur, 10);
        // strip trailing carriage returns from input[cur..j]
        let mut e: usize = j;
        while e > cur && input[e - 1] == 13
            invariant
                cur <= e <= j <= n == input@.len(),
                forall|k: int| e <= k < j ==> input@[k] == 13,
        decreases e,
        {
            e -= 1;
        }
        let piece = copy_range(input, cur, e);
        out.push(piece);
        proof {
            assert(out.deep_view() =~~= out0.push(piece@));
            let jj = j - cur;
            assert(forall|k: int| 0 <= k < suffix.len() ==> suffix[k] == input@[k + cur]);
            lemma_first_idx_char(suffix, 10, 0, jj);
            assert(first_idx(suffix, 10, 0) == jj);
            let head = if jj == suffix.len() {
                suffix
            } else {
                suffix.subrange(0, jj)
            };
            assert(forall|k: int| 0 <= k < head.len() ==> head[k] == input@[k + cur]);
            if e == cur {
                lemma_strip_cr_at(head, 0);
            } else {
                assert(head[e - cur - 1] == input@[e - 1]);
                lemma_strip_cr_at(head, e - cur);
            }
            assert(strip_cr(head) =~= input@.subrange(cur as int, e as int));
            assert(piece@ == strip_cr(head));
            if j < n {
                let tail = input@.subrange(j + 1, n as int);
                assert(suffix.subrange(jj + 1, suffix.len() as int) =~= tail);
                assert(split_lines_spec(suffix) == seq![strip_cr(suffix.subrange(0, jj))]
                    + split_lines_spec(suffix.subrange(jj + 1, suffix.len() as int)));
                assert(split_lines_spec(suffix) == seq![piece@] + split_lines_spec(tail));
                assert(out0.push(piece@) + split_lines_spec(tail) =~= out0 + split_lines_spec(
                    suffix,
                ));
            } else {
                assert(split_lines_spec(suffix) == seq![piece@]);
                assert(split_lines_spec(input@.subrange(n as int, n as int)) =~= Seq::<
                    Seq<u8>,
                >::empty());
                assert(out0.push(piece@) + split_lines_spec(
                    input@.subrange(n as int, n as int),
                ) =~= out0 + split_lines_spec(suffix));
            }
        }
        if j < n {
            cur = j + 1;
        } else {
            cur = n;
        }
    }
    proof {
        assert(split_lines_spec(input@.subrange(n as int, n as int)) =~= Seq::<Seq<u8>>::empty());
        assert(out.deep_view() + Seq::<Seq<u8>>::empty() =~= out.deep_view());
    }
    out
}

// ───────────────────────── length bookkeeping ────────────────────────────────

/// Total length splits at any cut point.
proof fn lemma_total_len_take_plus(s: Seq<Seq<u8>>, k: int)
    requires
        0 <= k <= s.len(),
    ensures
        total_len(s) == total_len(s.take(k)) + total_len(s.skip(k)),
    decreases s.len(),
{
    if k == s.len() {
        assert(s.take(k) =~= s);
        assert(s.skip(k) =~= Seq::<Seq<u8>>::empty());
    } else {
        let s1 = s.drop_last();
        lemma_total_len_take_plus(s1, k);
        assert(s1.take(k) =~= s.take(k));
        assert(s.skip(k).drop_last() =~= s1.skip(k));
        assert(s.skip(k).last() == s.last());
    }
}

/// A slice never holds more bytes than the whole.
proof fn lemma_total_len_subrange_le(s: Seq<Seq<u8>>, a: int, b: int)
    requires
        0 <= a <= b <= s.len(),
    ensures
        total_len(s.subrange(a, b)) <= total_len(s),
{
    lemma_total_len_take_plus(s, b);
    lemma_total_len_take_plus(s.take(b), a);
    assert(s.take(b).skip(a) =~= s.subrange(a, b));
}

/// One element never holds more bytes than the whole.
proof fn lemma_total_len_elem(s: Seq<Seq<u8>>, i: int)
    requires
        0 <= i < s.len(),
    ensures
        s[i].len() <= total_len(s),
    decreases s.len(),
{
    if i < s.len() - 1 {
        lemma_total_len_elem(s.drop_last(), i);
    }
}

/// Extending a slice by its next element adds that element's length.
proof fn lemma_total_len_extend(s: Seq<Seq<u8>>, a: int, b: int)
    requires
        0 <= a <= b < s.len(),
    ensures
        total_len(s.subrange(a, b + 1)) == total_len(s.subrange(a, b)) + s[b].len(),
{
    assert(s.subrange(a, b + 1).drop_last() =~= s.subrange(a, b));
    assert(s.subrange(a, b + 1).last() == s[b]);
}

// ───────────────────────── records and the parser ───────────────────────────

/// Minimal record data extracted during the counting pass.
pub struct GameInfo {
    pub event: Vec<u8>,
    pub white: Vec<u8>,
    pub black: Vec<u8>,
    pub time_control: Vec<u8>,
    pub half_move_count: u32,
}

/// Full record data, including the newline-normalized original text, for
/// the extraction pass.
pub struct Game {
    pub info: GameInfo,
    pub raw_pgn: Vec<u8>,
}

/// The metadata the state machine accumulated is what the record reports.
pub open spec fn info_matches(g: &GameInfo, a: RecAcc) -> bool {
    &&& g.event@ == a.f.event
    &&& g.white@ == a.f.white
    &&& g.black@ == a.f.black
    &&& g.time_control@ == a.f.tc
    &&& g.half_move_count as nat == a.half
}

pub open spec fn game_matches(g: &Game, a: RecAcc) -> bool {
    info_matches(&g.info, a) && g.raw_pgn@ == a.raw
}

/// Pull parser over a byte buffer already in memory, pre-split into
/// lines, with a cursor; a record ended by the next record's first
/// header line leaves that line unconsumed, which stands in for the
/// one-line push-back of a reader that cannot seek.  For input too large
/// to hold, feed `RecordStream` line by line instead.
pub struct PgnParser {
    lines: Vec<Vec<u8>>,
    pos: usize,
}

impl PgnParser {
    pub closed spec fn lines_seq(&self) -> Seq<Seq<u8>> {
        self.lines.deep_view()
    }

    pub closed spec fn pos_int(&self) -> int {
        self.pos as int
    }

    pub closed spec fn wf(&self) -> bool {
        &&& self.pos <= self.lines.deep_view().len()
        &&& all_normalized(self.lines.deep_view())
        &&& total_len(self.lines.deep_view()) <= MAX_INPUT_BYTES as nat
    }

    /// A parser positioned at the start of the given byte stream.
    pub fn new(input: &Vec<u8>) -> (p: Self)
        requires
            input@.len() <= MAX_INPUT_BYTES,
        ensures
            p.wf(),
            p.lines_seq() == split_lines_spec(input@),
            p.pos_int() == 0,
    {
        let lines = split_lines(input);
        proof {
            lemma_split_lines_props(input@);
        }
        PgnParser { lines, pos: 0 }
    }

    /// Full-text pass: the next record with its original text, or `None`
    /// once the input is exhausted.
    pub fn next_game(&mut self) -> (r: Option<Game>)
        requires
            old(self).wf(),
        ensures
            final(self).wf(),
            final(self).lines_seq() == old(self).lines_seq(),
            final(self).pos_int() == scan0(old(self).lines_seq(), old(self).pos_int()).next,
            (match r {
                Some(g) => scan0(old(self).lines_seq(), old(self).pos_int()).rec matches Some(a)
                    && game_matches(&g, a),
                None => scan0(old(self).lines_seq(), old(self).pos_int()).rec is None,
            }),
    {
        let ghost lines = self.lines.deep_view();
        let ghost pos0 = self.pos as int;
        let mut event: Vec<u8> = Vec::new();
        let mut white: Vec<u8> = Vec::new();
        let mut black: Vec<u8> = Vec::new();
        let mut tc: Vec<u8> = Vec::new();
        let mut half: u32 = 0;
        let mut raw: Vec<u8> = Vec::new();
        let mut st: ScanPhase = ScanPhase::Between;
        loop
            invariant
                self.wf(),
                self.lines.deep_view() == lines,
                lines == old(self).lines_seq(),
                pos0 == old(self).pos_int(),
                pos0 <= self.pos as int <= lines.len(),
                half as nat <= total_len(lines.subrange(pos0, self.pos as int)),
                total_len(lines) <= MAX_INPUT_BYTES as nat,
                scan(lines, pos0, empty_acc(), ScanPhase::Between) == scan(
                    lines,
                    self.pos as int,
                    (RecAcc {
                        f: FieldsS { event: event@, white: white@, black: black@, tc: tc@ },
                        half: half as nat,
                        raw: raw@,
                    }),
                    st,
                ),
            decreases lines.len() - self.pos,
        {
            let ghost acc = RecAcc {
                f: FieldsS { event: event@, white: white@, black: black@, tc: tc@ },
                half: half as nat,
                raw: raw@,
            };
            let n = self.lines.len();
            proof {
                assert(lines.len() == n);
            }
            if self.pos == n {
                match st {
                    ScanPhase::Between => {
                        return None;
                    },
                    _ => {
                        return Some(
                            Game {
                                info: GameInfo {
                                    event,
                                    white,
                                    black,
                                    time_control: tc,
                                    half_move_count: half,
                                },
                                raw_pgn: raw,
                            },
                        );
                    },
                }
            }
            let ghost i = self.pos as int;
            let ghost l = lines[i];
            proof {
                assert(self.lines@[i].deep_view() == lines[i]);
                assert(self.lines@[i]@ =~= self.lines@[i].deep_view());
                lemma_total_len_elem(lines, i);
            }
            let t = trim_line(&self.lines[self.pos]);
            proof {
                assert(t@ == trim_spec(l));
            }
            if t.len() == 0 {
                match st {
                    ScanPhase::Between => {
                        self.pos += 1;
                        proof {
                            lemma_total_len_extend(lines, pos0, i);
                        }
                    },
                    ScanPhase::Headers => {
                        raw.push(10);
                        st = ScanPhase::Moves;
                        self.pos += 1;
                        proof {
                            lemma_total_len_extend(lines, pos0, i);
                        }
                    },
                    ScanPhase::Moves => {
                        raw.push(10);
                        self.pos += 1;
                        return Some(
                            Game {
                                info: GameInfo {
                                    event,
                                    white,
                                    black,
                                    time_control: tc,
                                    half_move_count: half,
                                },
                                raw_pgn: raw,
                            },
                        );
                    },
                }
            } else if is_header_line(&t) {
                match st {
                    ScanPhase::Moves => {
                        return Some(
                            Game {
                                info: GameInfo {
                                    event,
                                    white,
                                    black,
                                    time_control: tc,
                                    half_move_count: half,
                                },
                                raw_pgn: raw,
                            },
                        );
                    },
                    _ => {
                        extract_header_into(&t, &mut event, &mut white, &mut black, &mut tc);
                        let line = &self.lines[self.pos];
                        append_bytes(&mut raw, line);
                        raw.push(10);
                        proof {
                            assert(raw@ =~= acc.raw + l + seq![10u8]);
                        }
                        st = ScanPhase::Headers;
                        self.pos += 1;
                        proof {
                            lemma_total_len_extend(lines, pos0, i);
                        }
                    },
                }
            } else {
                proof {
                    lemma_total_len_subrange_le(lines, pos0, i + 1);
                    lemma_total_len_extend(lines, pos0, i);
                }
                let cnt = count_clk(&t);
                match st {
                    ScanPhase::Between => {
                        self.pos += 1;
                    },
                    ScanPhase::Headers => {
                        half = half + cnt;
                        raw.push(10);
                        let line = &self.lines[self.pos];
                        append_bytes(&mut raw, line);
                        raw.push(10);
                        proof {
                            assert(raw@ =~= acc.raw.push(10) + l + seq![10u8]);
                        }
                        st = ScanPhase::Moves;
                        self.pos += 1;
                    },
                    ScanPhase::Moves => {
                        half = half + cnt;
                        let line = &self.lines[self.pos];
                        append_bytes(&mut raw, line);
                        raw.push(10);
                        proof {
                            assert(raw@ =~= acc.raw + l + seq![10u8]);
                        }
                        self.pos += 1;
                    },
                }
            }
        }
    }

    /// Metadata-only pass: the header fields and half-move count of the
    /// next record, or `None` once the input is exhausted.
    pub fn next_info(&mut self) -> (r: Option<GameInfo>)
        requires
            old(self).wf(),
        ensures
            final(self).wf(),
            final(self).lines_seq() == old(self).lines_seq(),
            final(self).pos_int() == scan0(old(self).lines_seq(), old(self).pos_int()).next,
            (match r {
                Some(g) => scan0(old(self).lines_seq(), old(self).pos_int()).rec matches Some(a)
                    && info_matches(&g, a),
                None => scan0(old(self).lines_seq(), old(self).pos_int()).rec is None,
            }),
    {
        match self.next_game() {
            Some(g) => Some(g.info),
            None => None,
        }
    }
}

/// A record's text never holds more than the remaining input bytes plus
/// two bytes per remaining line, on top of what was already accumulated.
proof fn lemma_scan_raw_len(lines: Seq<Seq<u8>>, i: int, acc: RecAcc, st: ScanPhase)
    requires
        0 <= i <= lines.len(),
    ensures
        (scan(lines, i, acc, st).rec matches Some(a) ==> a.raw.len() <= acc.raw.len() + total_len(
            lines.skip(i),
        ) + 2 * (lines.len() - i)),
    decreases lines.len() - i,
{
    if i < lines.len() {
        let l = lines[i];
        let t = trim_spec(l);
        assert(lines.skip(i) =~= seq![l] + lines.skip(i + 1));
        lemma_total_len_prepend(l, lines.skip(i + 1));
        if t.len() == 0 {
            match st {
                ScanPhase::Between => lemma_scan_raw_len(lines, i + 1, acc, ScanPhase::Between),
                ScanPhase::Headers => lemma_scan_raw_len(
                    lines,
                    i + 1,
                    RecAcc { raw: acc.raw.push(10), ..acc },
                    ScanPhase::Moves,
                ),
                ScanPhase::Moves => {},
            }
        } else if is_header(t) {
            match st {
                ScanPhase::Moves => {},
                _ => lemma_scan_raw_len(
                    lines,
                    i + 1,
                    RecAcc {
                        f: header_update(acc.f, t),
                        half: acc.half,
                        raw: acc.raw + l + seq![10u8],
                    },
                    ScanPhase::Headers,
                ),
            }
        } else {
            match st {
                ScanPhase::Between => lemma_scan_raw_len(lines, i + 1, acc, ScanPhase::Between),
                ScanPhase::Headers => lemma_scan_raw_len(
                    lines,
                    i + 1,
                    RecAcc {
                        f: acc.f,
                        half: acc.half + clk_count(t),
                        raw: acc.raw.push(10) + l + seq![10u8],
                    },
                    ScanPhase::Moves,
                ),
                ScanPhase::Moves => lemma_scan_raw_len(
                    lines,
                    i + 1,
                    RecAcc { half: acc.half + clk_count(t), raw: acc.raw + l + seq![10u8], ..acc },
                    ScanPhase::Moves,
                ),
            }
        }
    }
}

/// A record fresh from line `i` fits in the whole input's bytes plus two
/// bytes per line.
pub proof fn lemma_scan0_raw_bound(lines: Seq<Seq<u8>>, i: int)
    requires
        0 <= i <= lines.len(),
    ensures
        (scan0(lines, i).rec matches Some(a) ==> a.raw.len() <= total_len(lines) + 2
            * lines.len()),
{
    lemma_scan_raw_len(lines, i, empty_acc(), ScanPhase::Between);
    lemma_total_len_take_plus(lines, i);
    assert(lines.take(i) =~= lines.subrange(0, i));
}


// ───────────────────── structured records: laws ──────────────────────────────

/// The tracked fields after folding the trimmed header lines `[i, j)`.
pub open spec fn fold_fields(lines: Seq<Seq<u8>>, f: FieldsS, i: int, j: int) -> FieldsS
    decreases j - i when i <= j
{
    if i >= j {
        f
    } else {
        fold_fields(lines, header_update(f, trim_spec(lines[i])), i + 1, j)
    }
}

/// The half-move count contributed by the trimmed lines `[j, k)`.
pub open spec fn sum_clk(lines: Seq<Seq<u8>>, j: int, k: int) -> nat
    decreases k - j when j <= k
{
    if j >= k {
        0
    } else {
        clk_count(trim_spec(lines[j])) + sum_clk(lines, j + 1, k)
    }
}

/// The lines `[i, j)` joined, each with a trailing newline.
pub open spec fn join_raw(lines: Seq<Seq<u8>>, i: int, j: int) -> Seq<u8>
    decreases j - i when i <= j
{
    if i >= j {
        Seq::empty()
    } else {
        lines[i] + seq![10u8] + join_raw(lines, i + 1, j)
    }
}

/// Every line in `[i, j)` is a header line.
pub open spec fn header_block(lines: Seq<Seq<u8>>, i: int, j: int) -> bool {
    forall|x: int| i <= x < j ==> is_header(#[trigger] trim_spec(lines[x]))
}

/// Every line in `[j, k)` is a move line: non-blank and not a header.
pub open spec fn move_block(lines: Seq<Seq<u8>>, j: int, k: int) -> bool {
    forall|x: int|
        j <= x < k ==> (#[trigger] trim_spec(lines[x])).len() > 0 && !is_header(
            trim_spec(lines[x]),
        )
}

/// Consuming a block of header lines folds them into the fields.
proof fn lemma_scan_headers(lines: Seq<Seq<u8>>, i: int, j: int, acc: RecAcc)
    requires
        0 <= i <= j <= lines.len(),
        header_block(lines, i, j),
    ensures
        scan(lines, i, acc, ScanPhase::Headers) == scan(
            lines,
            j,
            (RecAcc {
                f: fold_fields(lines, acc.f, i, j),
                half: acc.half,
                raw: acc.raw + join_raw(lines, i, j),
            }),
            ScanPhase::Headers,
        ),
    decreases j - i,
{
    if i >= j {
        assert(acc.raw + join_raw(lines, i, j) =~= acc.raw);
        assert(scan(lines, i, acc, ScanPhase::Headers) == scan(
            lines,
            j,
            (RecAcc { f: acc.f, half: acc.half, raw: acc.raw + join_raw(lines, i, j) }),
            ScanPhase::Headers,
        ));
    } else {
        let t = trim_spec(lines[i]);
        assert(is_header(t));
        assert(t.len() >= 2);
        let acc1 = RecAcc {
            f: header_update(acc.f, t),
            half: acc.half,
            raw: acc.raw + lines[i] + seq![10u8],
        };
        lemma_scan_headers(lines, i + 1, j, acc1);
        assert(acc1.raw + join_raw(lines, i + 1, j) =~= acc.raw + join_raw(lines, i, j));
    }
}

/// Consuming a block of move lines adds their half-moves; the block ends
/// at end of input, at a blank line, or at the next record's header.
proof fn lemma_scan_moves(lines: Seq<Seq<u8>>, j: int, k: int, acc: RecAcc)
    requires
        0 <= j <= k <= lines.len(),
        move_block(lines, j, k),
    ensures
        ({
            let a_k = RecAcc {
                f: acc.f,
                half: acc.half + sum_clk(lines, j, k),
                raw: acc.raw + join_raw(lines, j, k),
            };
            &&& (k == lines.len() ==> scan(lines, j, acc, ScanPhase::Moves) == (ScanOut {
                rec: Some(a_k),
                next: k,
            }))
            &&& (k < lines.len() && trim_spec(lines[k]).len() == 0 ==> scan(
                lines,
                j,
                acc,
                ScanPhase::Moves,
            ) == (ScanOut { rec: Some(RecAcc { raw: a_k.raw.push(10), ..a_k }), next: k + 1 }))
            &&& (k < lines.len() && is_header(trim_spec(lines[k])) ==> scan(
                lines,
                j,
                acc,
                ScanPhase::Moves,
            ) == (ScanOut { rec: Some(a_k), next: k }))
        }),
    decreases k - j,
{
    if j >= k {
        assert(acc.raw + join_raw(lines, j, k) =~= acc.raw);
        assert(acc.half + sum_clk(lines, j, k) == acc.half);
    } else {
        let t = trim_spec(lines[j]);
        let acc1 = RecAcc {
            half: acc.half + clk_count(t),
            raw: acc.raw + lines[j] + seq![10u8],
            ..acc
        };
        lemma_scan_moves(lines, j + 1, k, acc1);
        assert(acc1.raw + join_raw(lines, j + 1, k) =~= acc.raw + join_raw(lines, j, k));
    }
}

/// A record whose header block runs straight into its move lines, with
/// no blank separator, still yields the same fields and the same
/// half-move count as the record written with the separator.
pub proof fn lemma_header_robustness(hs: Seq<Seq<u8>>, ms: Seq<Seq<u8>>)
    requires
        hs.len() > 0,
        forall|x: int| 0 <= x < hs.len() ==> is_header(#[trigger] trim_spec(hs[x])),
        forall|x: int|
            0 <= x < ms.len() ==> (#[trigger] trim_spec(ms[x])).len() > 0 && !is_header(
                trim_spec(ms[x]),
            ),
    ensures
        ({
            let joined = hs + ms;
            let separated = hs + seq![Seq::<u8>::empty()] + ms;
            let o1 = scan0(joined, 0);
            let o2 = scan0(separated, 0);
            &&& o1.rec is Some
            &&& o2.rec is Some
            &&& o1.rec->Some_0.f == o2.rec->Some_0.f
            &&& o1.rec->Some_0.f == fold_fields(joined, empty_fields(), 0, hs.len() as int)
            &&& o1.rec->Some_0.half == o2.rec->Some_0.half
            &&& o1.rec->Some_0.half == sum_clk(joined, hs.len() as int, joined.len() as int)
        }),
{
    let joined = hs + ms;
    let separated = hs + seq![Seq::<u8>::empty()] + ms;
    let h = hs.len() as int;
    lemma_parse_structured(joined, 0, h, joined.len() as int);
    // the separated form: headers, then the blank line switches to moves
    assert(forall|x: int| 0 <= x < h ==> separated[x] == hs[x]);
    assert(header_block(separated, 0, h));
    assert(is_header(trim_spec(separated[0])));
    let t0 = trim_spec(separated[0]);
    let acc1 = RecAcc {
        f: header_update(empty_fields(), t0),
        half: 0,
        raw: Seq::<u8>::empty() + separated[0] + seq![10u8],
    };
    lemma_scan_headers(separated, 1, h, acc1);
    let acc_h = RecAcc {
        f: fold_fields(separated, acc1.f, 1, h),
        half: 0,
        raw: acc1.raw + join_raw(separated, 1, h),
    };
    assert(separated[h] =~= Seq::<u8>::empty());
    assert(trim_spec(separated[h]).len() == 0);
    let acc_m = RecAcc { raw: acc_h.raw.push(10), ..acc_h };
    assert(scan(separated, h, acc_h, ScanPhase::Headers) == scan(
        separated,
        h + 1,
        acc_m,
        ScanPhase::Moves,
    ));
    assert(move_block(separated, h + 1, separated.len() as int)) by {
        assert(forall|x: int|
            h + 1 <= x < separated.len() ==> separated[x] == ms[x - h - 1]);
    }
    lemma_scan_moves(separated, h + 1, separated.len() as int, acc_m);
    // the two folds and sums agree line by line
    lemma_fold_fields_shift(joined, separated, empty_fields(), 0, h, 0);
    lemma_fold_fields_shift(joined, separated, header_update(empty_fields(), t0), 1, h, 0);
    lemma_sum_clk_shift(joined, separated, h, joined.len() as int, 1);
    // unfold the joined side start
    assert(joined[0] == separated[0]);
    lemma_parse_structured_fields(joined, 0, h, joined.len() as int);
}

/// Folding the same lines at shifted positions gives the same fields.
proof fn lemma_fold_fields_shift(
    l1: Seq<Seq<u8>>,
    l2: Seq<Seq<u8>>,
    f: FieldsS,
    i: int,
    j: int,
    d: int,
)
    requires
        0 <= i <= j <= l1.len(),
        0 <= i + d,
        j + d <= l2.len(),
        forall|x: int| i <= x < j ==> l1[x] == l2[x + d],
    ensures
        fold_fields(l1, f, i, j) == fold_fields(l2, f, i + d, j + d),
    decreases j - i,
{
    if i < j {
        lemma_fold_fields_shift(l1, l2, header_update(f, trim_spec(l1[i])), i + 1, j, d);
    }
}

/// Summing the same lines at shifted positions gives the same count.
proof fn lemma_sum_clk_shift(l1: Seq<Seq<u8>>, l2: Seq<Seq<u8>>, j: int, k: int, d: int)
    requires
        0 <= j <= k <= l1.len(),
        0 <= j + d,
        k + d <= l2.len(),
        forall|x: int| j <= x < k ==> l1[x] == l2[x + d],
    ensures
        sum_clk(l1, j, k) == sum_clk(l2, j + d, k + d),
    decreases k - j,
{
    if j < k {
        lemma_sum_clk_shift(l1, l2, j + 1, k, d);
    }
}

/// A structured record running to the end of input parses to the fold
/// of its headers and the sum of its move lines.
proof fn lemma_parse_structured(lines: Seq<Seq<u8>>, i: int, j: int, k: int)
    requires
        0 <= i < j <= k <= lines.len(),
        k == lines.len(),
        header_block(lines, i, j),
        move_block(lines, j, k),
    ensures
        scan0(lines, i).rec is Some,
        scan0(lines, i).next == k,
        scan0(lines, i).rec->Some_0.f == fold_fields(lines, empty_fields(), i, j),
        scan0(lines, i).rec->Some_0.half == sum_clk(lines, j, k),
{
    lemma_parse_structured_fields(lines, i, j, k);
}

/// Shared body for structured-record parsing: headers from `i` to `j`,
/// moves from `j` to `k`, ending at end of input or at the next record's
/// header line.
proof fn lemma_parse_structured_fields(lines: Seq<Seq<u8>>, i: int, j: int, k: int)
    requires
        0 <= i < j <= k <= lines.len(),
        k == lines.len() || (k < lines.len() && is_header(trim_spec(lines[k])) && j < k),
        header_block(lines, i, j),
        move_block(lines, j, k),
    ensures
        scan0(lines, i).rec is Some,
        scan0(lines, i).next == k,
        scan0(lines, i).rec->Some_0.f == fold_fields(lines, empty_fields(), i, j),
        scan0(lines, i).rec->Some_0.half == sum_clk(lines, j, k),
{
    let t0 = trim_spec(lines[i]);
    assert(is_header(t0));
    let acc1 = RecAcc {
        f: header_update(empty_fields(), t0),
        half: 0,
        raw: Seq::<u8>::empty() + lines[i] + seq![10u8],
    };
    assert(scan0(lines, i) == scan(lines, i + 1, acc1, ScanPhase::Headers));
    lemma_scan_headers(lines, i + 1, j, acc1);
    let acc_h = RecAcc {
        f: fold_fields(lines, acc1.f, i + 1, j),
        half: 0,
        raw: acc1.raw + join_raw(lines, i + 1, j),
    };
    if j == k {
        // no move lines: either end of input or impossible by the bounds
        assert(k == lines.len());
        assert(scan(lines, j, acc_h, ScanPhase::Headers).rec == Some(acc_h));
    } else {
        let tj = trim_spec(lines[j]);
        assert(tj.len() > 0 && !is_header(tj));
        let acc_m = RecAcc {
            f: acc_h.f,
            half: acc_h.half + clk_count(tj),
            raw: acc_h.raw.push(10) + lines[j] + seq![10u8],
        };
        assert(scan(lines, j, acc_h, ScanPhase::Headers) == scan(
            lines,
            j + 1,
            acc_m,
            ScanPhase::Moves,
        ));
        lemma_scan_moves(lines, j + 1, k, acc_m);
    }
}

/// Two records written back to back, with no blank line between the end
/// of the first record's moves and the second record's first header,
/// still parse as two distinct records: the first ends exactly at the
/// second's first header line, each with its own fields and half-moves.
pub proof fn lemma_boundary_without_separator(lines: Seq<Seq<u8>>, j: int, k: int, j2: int)
    requires
        0 < j < k < j2 <= lines.len(),
        header_block(lines, 0, j),
        move_block(lines, j, k),
        header_block(lines, k, j2),
        k < j2,
        move_block(lines, j2, lines.len() as int),
    ensures
        scan0(lines, 0).rec is Some,
        scan0(lines, 0).next == k,
        scan0(lines, 0).rec->Some_0.f == fold_fields(lines, empty_fields(), 0, j),
        scan0(lines, 0).rec->Some_0.half == sum_clk(lines, j, k),
        scan0(lines, k).rec is Some,
        scan0(lines, k).next == lines.len(),
        scan0(lines, k).rec->Some_0.f == fold_fields(lines, empty_fields(), k, j2),
        scan0(lines, k).rec->Some_0.half == sum_clk(lines, j2, lines.len() as int),
{
    assert(is_header(trim_spec(lines[k])));
    lemma_parse_structured_fields(lines, 0, j, k);
    lemma_parse_structured_fields(lines, k, j2, lines.len() as int);
}

/// The state machine never runs backwards, stops within the input, and a
/// fresh start that produces a record always consumes at least one line.
pub proof fn lemma_scan_bounds(lines: Seq<Seq<u8>>, i: int, acc: RecAcc, st: ScanPhase)
    requires
        0 <= i <= lines.len(),
    ensures
        i <= scan(lines, i, acc, st).next <= lines.len(),
        (st is Between && scan(lines, i, acc, st).rec is Some) ==> scan(lines, i, acc, st).next
            > i,
        scan(lines, i, acc, st).rec is None ==> scan(lines, i, acc, st).next == lines.len(),
    decreases lines.len() - i,
{
    if i < lines.len() {
        let l = lines[i];
        let t = trim_spec(l);
        if t.len() == 0 {
            match st {
                ScanPhase::Between => lemma_scan_bounds(lines, i + 1, acc, ScanPhase::Between),
                ScanPhase::Headers => lemma_scan_bounds(
                    lines,
                    i + 1,
                    RecAcc { raw: acc.raw.push(10), ..acc },
                    ScanPhase::Moves,
                ),
                ScanPhase::Moves => {},
            }
        } else if is_header(t) {
            match st {
                ScanPhase::Moves => {},
                _ => lemma_scan_bounds(
                    lines,
                    i + 1,
                    RecAcc {
                        f: header_update(acc.f, t),
                        half: acc.half,
                        raw: acc.raw + l + seq![10u8],
                    },
                    ScanPhase::Headers,
                ),
            }
        } else {
            match st {
                ScanPhase::Between => lemma_scan_bounds(lines, i + 1, acc, ScanPhase::Between),
                ScanPhase::Headers => lemma_scan_bounds(
                    lines,
                    i + 1,
                    RecAcc {
                        f: acc.f,
                        half: acc.half + clk_count(t),
                        raw: acc.raw.push(10) + l + seq![10u8],
                    },
                    ScanPhase::Moves,
                ),
                ScanPhase::Moves => lemma_scan_bounds(
                    lines,
                    i + 1,
                    RecAcc {
                        half: acc.half + clk_count(t),
                        raw: acc.raw + l + seq![10u8],
                        ..acc
                    },
                    ScanPhase::Moves,
                ),
            }
        }
    }
}

/// All records the machine produces from line `j` on.
pub open spec fn records_from(lines: Seq<Seq<u8>>, j: int) -> Seq<RecAcc>
    decreases lines.len() - j when 0 <= j <= lines.len() via records_from_decreases
{
    let out = scan0(lines, j);
    match out.rec {
        None => Seq::empty(),
        Some(a) => seq![a] + records_from(lines, out.next),
    }
}

#[via_fn]
proof fn records_from_decreases(lines: Seq<Seq<u8>>, j: int) {
    lemma_scan_bounds(lines, j, empty_acc(), ScanPhase::Between);
}

// ───────────────────── the parser round trip ─────────────────────────────────

/// The state machine run to the end of the input without completing a
/// record: the in-progress accumulator and phase, or `None` if a record
/// completes before the last line is consumed.
pub open spec fn scan_state(lines: Seq<Seq<u8>>, i: int, acc: RecAcc, st: ScanPhase) -> Option<
    (RecAcc, ScanPhase),
>
    decreases lines.len() - i when 0 <= i <= lines.len()
{
    if i >= lines.len() {
        Some((acc, st))
    } else {
        let l = lines[i];
        let t = trim_spec(l);
        if t.len() == 0 {
            match st {
                ScanPhase::Between => scan_state(lines, i + 1, acc, ScanPhase::Between),
                ScanPhase::Headers => scan_state(
                    lines,
                    i + 1,
                    RecAcc { raw: acc.raw.push(10), ..acc },
                    ScanPhase::Moves,
                ),
                ScanPhase::Moves => None,
            }
        } else if is_header(t) {
            match st {
                ScanPhase::Moves => None,
                _ => scan_state(
                    lines,
                    i + 1,
                    RecAcc {
                        f: header_update(acc.f, t),
                        half: acc.half,
                        raw: acc.raw + l + seq![10u8],
                    },
                    ScanPhase::Headers,
                ),
            }
        } else {
            match st {
                ScanPhase::Between => scan_state(lines, i + 1, acc, ScanPhase::Between),
                ScanPhase::Headers => scan_state(
                    lines,
                    i + 1,
                    RecAcc {
                        f: acc.f,
                        half: acc.half + clk_count(t),
                        raw: acc.raw.push(10) + l + seq![10u8],
                    },
                    ScanPhase::Moves,
                ),
                ScanPhase::Moves => scan_state(
                    lines,
                    i + 1,
                    RecAcc { half: acc.half + clk_count(t), raw: acc.raw + l + seq![10u8], ..acc },
                    ScanPhase::Moves,
                ),
            }
        }
    }
}

/// Splitting after appending one normalized line and its newline appends
/// exactly that line.
proof fn lemma_split_append(r: Seq<u8>, l: Seq<u8>)
    requires
        r.len() == 0 || r[r.len() - 1] == 10,
        normalized_line(l),
    ensures
        split_lines_spec(r + l + seq![10u8]) == split_lines_spec(r) + seq![l],
    decreases r.len(),
{
    let rl = r + l;
    let whole = r + l + seq![10u8];
    assert(whole =~= rl + seq![10u8]);
    assert(forall|k: int| 0 <= k < rl.len() ==> whole[k] == rl[k]);
    assert(forall|k: int| 0 <= k < r.len() ==> rl[k] == r[k]);
    assert(forall|k: int| r.len() <= k < rl.len() ==> rl[k] == l[k - r.len()]);
    assert(whole[whole.len() - 1] == 10);
    if r.len() == 0 {
        assert(forall|k: int| 0 <= k < l.len() ==> whole[k] == l[k] && whole[k] != 10);
        assert(whole[l.len() as int] == 10);
        lemma_first_idx_char(whole, 10, 0, l.len() as int);
        assert(whole.subrange(0, l.len() as int) =~= l);
        lemma_strip_cr_at(l, l.len() as int);
        assert(l.subrange(0, l.len() as int) =~= l);
        assert(strip_cr(whole.subrange(0, l.len() as int)) == l);
        assert(whole.subrange(l.len() as int + 1, whole.len() as int) =~= Seq::<u8>::empty());
        assert(split_lines_spec(Seq::<u8>::empty()) =~= Seq::<Seq<u8>>::empty());
        assert(split_lines_spec(whole) =~= seq![l]);
        assert(split_lines_spec(r) =~= Seq::<Seq<u8>>::empty());
        assert(split_lines_spec(r) + seq![l] =~= seq![l]);
    } else {
        lemma_first_idx_bounds(r, 10, 0);
        let j0 = first_idx(r, 10, 0);
        assert(r[r.len() - 1] == 10);
        assert(j0 < r.len());
        assert(forall|k: int| 0 <= k < j0 ==> whole[k] == r[k] && r[k] != 10);
        assert(whole[j0] == r[j0] && r[j0] == 10);
        lemma_first_idx_char(whole, 10, 0, j0);
        assert(whole.subrange(0, j0) =~= r.subrange(0, j0));
        let r1 = r.subrange(j0 + 1, r.len() as int);
        assert(r1.len() == 0 || r1[r1.len() - 1] == 10);
        lemma_split_append(r1, l);
        assert(whole.subrange(j0 + 1, whole.len() as int) =~= r1 + l + seq![10u8]);
        assert(split_lines_spec(whole) == seq![strip_cr(whole.subrange(0, j0))]
            + split_lines_spec(r1 + l + seq![10u8]));
        assert(split_lines_spec(r) == seq![strip_cr(r.subrange(0, j0))] + split_lines_spec(r1));
        assert(seq![strip_cr(r.subrange(0, j0))] + (split_lines_spec(r1) + seq![l])
            =~= (seq![strip_cr(r.subrange(0, j0))] + split_lines_spec(r1)) + seq![l]);
    }
}

/// A partial run beyond a prefix only sees the suffix.
proof fn lemma_scan_state_shift(
    l1: Seq<Seq<u8>>,
    l2: Seq<Seq<u8>>,
    k: int,
    acc: RecAcc,
    st: ScanPhase,
)
    requires
        0 <= k <= l2.len(),
    ensures
        scan_state(l1 + l2, l1.len() + k, acc, st) == scan_state(l2, k, acc, st),
    decreases l2.len() - k,
{
    if k < l2.len() {
        let l = l2[k];
        assert((l1 + l2)[l1.len() + k] == l);
        let t = trim_spec(l);
        if t.len() == 0 {
            match st {
                ScanPhase::Between => lemma_scan_state_shift(l1, l2, k + 1, acc, ScanPhase::Between),
                ScanPhase::Headers => lemma_scan_state_shift(
                    l1,
                    l2,
                    k + 1,
                    RecAcc { raw: acc.raw.push(10), ..acc },
                    ScanPhase::Moves,
                ),
                ScanPhase::Moves => {},
            }
        } else if is_header(t) {
            match st {
                ScanPhase::Moves => {},
                _ => lemma_scan_state_shift(
                    l1,
                    l2,
                    k + 1,
                    RecAcc {
                        f: header_update(acc.f, t),
                        half: acc.half,
                        raw: acc.raw + l + seq![10u8],
                    },
                    ScanPhase::Headers,
                ),
            }
        } else {
            match st {
                ScanPhase::Between => lemma_scan_state_shift(l1, l2, k + 1, acc, ScanPhase::Between),
                ScanPhase::Headers => lemma_scan_state_shift(
                    l1,
                    l2,
                    k + 1,
                    RecAcc {
                        f: acc.f,
                        half: acc.half + clk_count(t),
                        raw: acc.raw.push(10) + l + seq![10u8],
                    },
                    ScanPhase::Moves,
                ),
                ScanPhase::Moves => lemma_scan_state_shift(
                    l1,
                    l2,
                    k + 1,
                    RecAcc { half: acc.half + clk_count(t), raw: acc.raw + l + seq![10u8], ..acc },
                    ScanPhase::Moves,
                ),
            }
        }
    }
}

/// A partial run over a concatenation runs the prefix, then the suffix.
proof fn lemma_scan_state_append(
    l1: Seq<Seq<u8>>,
    l2: Seq<Seq<u8>>,
    i: int,
    acc: RecAcc,
    st: ScanPhase,
)
    requires
        0 <= i <= l1.len(),
    ensures
        scan_state(l1 + l2, i, acc, st) == (match scan_state(l1, i, acc, st) {
            Some((a, s)) => scan_state(l2, 0, a, s),
            None => None,
        }),
    decreases l1.len() - i,
{
    if i == l1.len() {
        lemma_scan_state_shift(l1, l2, 0, acc, st);
    } else {
        let l = l1[i];
        assert((l1 + l2)[i] == l);
        let t = trim_spec(l);
        if t.len() == 0 {
            match st {
                ScanPhase::Between => lemma_scan_state_append(l1, l2, i + 1, acc, ScanPhase::Between),
                ScanPhase::Headers => lemma_scan_state_append(
                    l1,
                    l2,
                    i + 1,
                    RecAcc { raw: acc.raw.push(10), ..acc },
                    ScanPhase::Moves,
                ),
                ScanPhase::Moves => {},
            }
        } else if is_header(t) {
            match st {
                ScanPhase::Moves => {},
                _ => lemma_scan_state_append(
                    l1,
                    l2,
                    i + 1,
                    RecAcc {
                        f: header_update(acc.f, t),
                        half: acc.half,
                        raw: acc.raw + l + seq![10u8],
                    },
                    ScanPhase::Headers,
                ),
            }
        } else {
            match st {
                ScanPhase::Between => lemma_scan_state_append(l1, l2, i + 1, acc, ScanPhase::Between),
                ScanPhase::Headers => lemma_scan_state_append(
                    l1,
                    l2,
                    i + 1,
                    RecAcc {
                        f: acc.f,
                        half: acc.half + clk_count(t),
                        raw: acc.raw.push(10) + l + seq![10u8],
                    },
                    ScanPhase::Moves,
                ),
                ScanPhase::Moves => lemma_scan_state_append(
                    l1,
                    l2,
                    i + 1,
                    RecAcc { half: acc.half + clk_count(t), raw: acc.raw + l + seq![10u8], ..acc },
                    ScanPhase::Moves,
                ),
            }
        }
    }
}

/// A partial run that reaches the end makes the full machine emit there.
proof fn lemma_state_to_scan(lines: Seq<Seq<u8>>, i: int, acc: RecAcc, st: ScanPhase)
    requires
        0 <= i <= lines.len(),
        scan_state(lines, i, acc, st) is Some,
    ensures
        ({
            let (a, s) = scan_state(lines, i, acc, st)->Some_0;
            scan(lines, i, acc, st) == (ScanOut {
                rec: if s is Between {
                    None
                } else {
                    Some(a)
                },
                next: lines.len() as int,
            })
        }),
    decreases lines.len() - i,
{
    if i < lines.len() {
        let l = lines[i];
        let t = trim_spec(l);
        if t.len() == 0 {
            match st {
                ScanPhase::Between => lemma_state_to_scan(lines, i + 1, acc, ScanPhase::Between),
                ScanPhase::Headers => lemma_state_to_scan(
                    lines,
                    i + 1,
                    RecAcc { raw: acc.raw.push(10), ..acc },
                    ScanPhase::Moves,
                ),
                ScanPhase::Moves => {},
            }
        } else if is_header(t) {
            match st {
                ScanPhase::Moves => {},
                _ => lemma_state_to_scan(
                    lines,
                    i + 1,
                    RecAcc {
                        f: header_update(acc.f, t),
                        half: acc.half,
                        raw: acc.raw + l + seq![10u8],
                    },
                    ScanPhase::Headers,
                ),
            }
        } else {
            match st {
                ScanPhase::Between => lemma_state_to_scan(lines, i + 1, acc, ScanPhase::Between),
                ScanPhase::Headers => lemma_state_to_scan(
                    lines,
                    i + 1,
                    RecAcc {
                        f: acc.f,
                        half: acc.half + clk_count(t),
                        raw: acc.raw.push(10) + l + seq![10u8],
                    },
                    ScanPhase::Moves,
                ),
                ScanPhase::Moves => lemma_state_to_scan(
                    lines,
                    i + 1,
                    RecAcc { half: acc.half + clk_count(t), raw: acc.raw + l + seq![10u8], ..acc },
                    ScanPhase::Moves,
                ),
            }
        }
    }
}

/// The round-trip invariant: parsing the accumulated text back runs the
/// machine to exactly the in-progress accumulator and phase.
pub open spec fn reparse_inv(acc: RecAcc, st: ScanPhase) -> bool {
    &&& (acc.raw.len() == 0 || acc.raw[acc.raw.len() - 1] == 10)
    &&& scan_state(split_lines_spec(acc.raw), 0, empty_acc(), ScanPhase::Between) == Some(
        (acc, st),
    )
}

/// Whatever record the machine emits from an invariant-respecting state,
/// parsing the record's text back yields that very record, consuming the
/// whole text.
proof fn lemma_round_trip_gen(lines: Seq<Seq<u8>>, i: int, acc: RecAcc, st: ScanPhase)
    requires
        0 <= i <= lines.len(),
        all_normalized(lines),
        reparse_inv(acc, st),
    ensures
        (scan(lines, i, acc, st).rec matches Some(a) ==> scan0(split_lines_spec(a.raw), 0)
            == (ScanOut { rec: Some(a), next: split_lines_spec(a.raw).len() as int })),
    decreases lines.len() - i,
{
    let pre = split_lines_spec(acc.raw);
    if i == lines.len() {
        if !(st is Between) {
            lemma_state_to_scan(pre, 0, empty_acc(), ScanPhase::Between);
        }
    } else {
        let l = lines[i];
        assert(normalized_line(l));
        let t = trim_spec(l);
        if t.len() == 0 {
            match st {
                ScanPhase::Between => lemma_round_trip_gen(lines, i + 1, acc, ScanPhase::Between),
                ScanPhase::Headers => {
                    let acc1 = RecAcc { raw: acc.raw.push(10), ..acc };
                    assert(acc1.raw =~= acc.raw + Seq::<u8>::empty() + seq![10u8]);
                    lemma_split_append(acc.raw, Seq::<u8>::empty());
                    lemma_scan_state_append(
                        pre,
                        seq![Seq::<u8>::empty()],
                        0,
                        empty_acc(),
                        ScanPhase::Between,
                    );
                    assert(trim_spec(Seq::<u8>::empty()) =~= Seq::<u8>::empty());
                    assert(scan_state(seq![Seq::<u8>::empty()], 0, acc, ScanPhase::Headers)
                        == scan_state(seq![Seq::<u8>::empty()], 1, acc1, ScanPhase::Moves));
                    assert(reparse_inv(acc1, ScanPhase::Moves));
                    lemma_round_trip_gen(lines, i + 1, acc1, ScanPhase::Moves);
                },
                ScanPhase::Moves => {
                    let a = RecAcc { raw: acc.raw.push(10), ..acc };
                    assert(a.raw =~= acc.raw + Seq::<u8>::empty() + seq![10u8]);
                    lemma_split_append(acc.raw, Seq::<u8>::empty());
                    lemma_scan_append(
                        pre,
                        seq![Seq::<u8>::empty()],
                        0,
                        empty_acc(),
                        ScanPhase::Between,
                    );
                    assert(trim_spec(Seq::<u8>::empty()) =~= Seq::<u8>::empty());
                    assert(scan(seq![Seq::<u8>::empty()], 0, acc, ScanPhase::Moves) == (ScanOut {
                        rec: Some(a),
                        next: 1,
                    }));
                    assert(split_lines_spec(a.raw).len() == pre.len() + 1);
                },
            }
        } else if is_header(t) {
            match st {
                ScanPhase::Moves => {
                    // push-back: the record is the accumulator as it stands
                    lemma_state_to_scan(pre, 0, empty_acc(), ScanPhase::Between);
                },
                _ => {
                    let acc1 = RecAcc {
                        f: header_update(acc.f, t),
                        half: acc.half,
                        raw: acc.raw + l + seq![10u8],
                    };
                    lemma_split_append(acc.raw, l);
                    lemma_scan_state_append(pre, seq![l], 0, empty_acc(), ScanPhase::Between);
                    assert(scan_state(seq![l], 0, acc, st) == scan_state(
                        seq![l],
                        1,
                        acc1,
                        ScanPhase::Headers,
                    ));
                    assert(reparse_inv(acc1, ScanPhase::Headers));
                    lemma_round_trip_gen(lines, i + 1, acc1, ScanPhase::Headers);
                },
            }
        } else {
            match st {
                ScanPhase::Between => lemma_round_trip_gen(lines, i + 1, acc, ScanPhase::Between),
                ScanPhase::Headers => {
                    let accm = RecAcc { raw: acc.raw.push(10), ..acc };
                    let acc1 = RecAcc {
                        f: acc.f,
                        half: acc.half + clk_count(t),
                        raw: acc.raw.push(10) + l + seq![10u8],
                    };
                    assert(accm.raw =~= acc.raw + Seq::<u8>::empty() + seq![10u8]);
                    lemma_split_append(acc.raw, Seq::<u8>::empty());
                    assert(acc1.raw =~= accm.raw + l + seq![10u8]);
                    lemma_split_append(accm.raw, l);
                    assert(split_lines_spec(acc1.raw) =~= pre + (seq![Seq::<u8>::empty()]
                        + seq![l]));
                    lemma_scan_state_append(
                        pre,
                        seq![Seq::<u8>::empty()] + seq![l],
                        0,
                        empty_acc(),
                        ScanPhase::Between,
                    );
                    let two = seq![Seq::<u8>::empty()] + seq![l];
                    assert(two[0] =~= Seq::<u8>::empty() && two[1] == l);
                    assert(trim_spec(Seq::<u8>::empty()) =~= Seq::<u8>::empty());
                    assert(scan_state(two, 0, acc, ScanPhase::Headers) == scan_state(
                        two,
                        1,
                        accm,
                        ScanPhase::Moves,
                    ));
                    assert(scan_state(two, 1, accm, ScanPhase::Moves) == scan_state(
                        two,
                        2,
                        acc1,
                        ScanPhase::Moves,
                    ));
                    assert(reparse_inv(acc1, ScanPhase::Moves));
                    lemma_round_trip_gen(lines, i + 1, acc1, ScanPhase::Moves);
                },
                ScanPhase::Moves => {
                    let acc1 = RecAcc {
                        half: acc.half + clk_count(t),
                        raw: acc.raw + l + seq![10u8],
                        ..acc
                    };
                    lemma_split_append(acc.raw, l);
                    lemma_scan_state_append(pre, seq![l], 0, empty_acc(), ScanPhase::Between);
                    assert(scan_state(seq![l], 0, acc, ScanPhase::Moves) == scan_state(
                        seq![l],
                        1,
                        acc1,
                        ScanPhase::Moves,
                    ));
                    assert(reparse_inv(acc1, ScanPhase::Moves));
                    lemma_round_trip_gen(lines, i + 1, acc1, ScanPhase::Moves);
                },
            }
        }
    }
}

/// The full machine over a concatenation: a record completed inside the
/// prefix is unchanged; otherwise the machine continues into the suffix.
proof fn lemma_scan_append(l1: Seq<Seq<u8>>, l2: Seq<Seq<u8>>, i: int, acc: RecAcc, st: ScanPhase)
    requires
        0 <= i <= l1.len(),
    ensures
        scan(l1 + l2, i, acc, st) == (match scan_state(l1, i, acc, st) {
            Some((a, s)) => {
                let o = scan(l2, 0, a, s);
                ScanOut { rec: o.rec, next: o.next + l1.len() }
            },
            None => scan(l1, i, acc, st),
        }),
    decreases l1.len() - i,
{
    if i == l1.len() {
        lemma_scan_shift(l1, l2, 0, acc, st);
    } else {
        let l = l1[i];
        assert((l1 + l2)[i] == l);
        let t = trim_spec(l);
        if t.len() == 0 {
            match st {
                ScanPhase::Between => lemma_scan_append(l1, l2, i + 1, acc, ScanPhase::Between),
                ScanPhase::Headers => lemma_scan_append(
                    l1,
                    l2,
                    i + 1,
                    RecAcc { raw: acc.raw.push(10), ..acc },
                    ScanPhase::Moves,
                ),
                ScanPhase::Moves => {},
            }
        } else if is_header(t) {
            match st {
                ScanPhase::Moves => {},
                _ => lemma_scan_append(
                    l1,
                    l2,
                    i + 1,
                    RecAcc {
                        f: header_update(acc.f, t),
                        half: acc.half,
                        raw: acc.raw + l + seq![10u8],
                    },
                    ScanPhase::Headers,
                ),
            }
        } else {
            match st {
                ScanPhase::Between => lemma_scan_append(l1, l2, i + 1, acc, ScanPhase::Between),
                ScanPhase::Headers => lemma_scan_append(
                    l1,
                    l2,
                    i + 1,
                    RecAcc {
                        f: acc.f,
                        half: acc.half + clk_count(t),
                        raw: acc.raw.push(10) + l + seq![10u8],
                    },
                    ScanPhase::Moves,
                ),
                ScanPhase::Moves => lemma_scan_append(
                    l1,
                    l2,
                    i + 1,
                    RecAcc { half: acc.half + clk_count(t), raw: acc.raw + l + seq![10u8], ..acc },
                    ScanPhase::Moves,
                ),
            }
        }
    }
}

/// The full machine beyond a prefix only sees the suffix, with shifted
/// positions.
proof fn lemma_scan_shift(l1: Seq<Seq<u8>>, l2: Seq<Seq<u8>>, k: int, acc: RecAcc, st: ScanPhase)
    requires
        0 <= k <= l2.len(),
    ensures
        ({
            let o = scan(l2, k, acc, st);
            scan(l1 + l2, l1.len() + k, acc, st) == (ScanOut {
                rec: o.rec,
                next: o.next + l1.len(),
            })
        }),
    decreases l2.len() - k,
{
    if k < l2.len() {
        let l = l2[k];
        assert((l1 + l2)[l1.len() + k] == l);
        let t = trim_spec(l);
        if t.len() == 0 {
            match st {
                ScanPhase::Between => lemma_scan_shift(l1, l2, k + 1, acc, ScanPhase::Between),
                ScanPhase::Headers => lemma_scan_shift(
                    l1,
                    l2,
                    k + 1,
                    RecAcc { raw: acc.raw.push(10), ..acc },
                    ScanPhase::Moves,
                ),
                ScanPhase::Moves => {},
            }
        } else if is_header(t) {
            match st {
                ScanPhase::Moves => {},
                _ => lemma_scan_shift(
                    l1,
                    l2,
                    k + 1,
                    RecAcc {
                        f: header_update(acc.f, t),
                        half: acc.half,
                        raw: acc.raw + l + seq![10u8],
                    },
                    ScanPhase::Headers,
                ),
            }
        } else {
            match st {
                ScanPhase::Between => lemma_scan_shift(l1, l2, k + 1, acc, ScanPhase::Between),
                ScanPhase::Headers => lemma_scan_shift(
                    l1,
                    l2,
                    k + 1,
                    RecAcc {
                        f: acc.f,
                        half: acc.half + clk_count(t),
                        raw: acc.raw.push(10) + l + seq![10u8],
                    },
                    ScanPhase::Moves,
                ),
                ScanPhase::Moves => lemma_scan_shift(
                    l1,
                    l2,
                    k + 1,
                    RecAcc { half: acc.half + clk_count(t), raw: acc.raw + l + seq![10u8], ..acc },
                    ScanPhase::Moves,
                ),
            }
        }
    }
}

/// Parser round trip: the text of any record the full-text pass
/// extracts, parsed again from the start, yields that very record —
/// same fields, same half-move count, same text — and consumes the whole
/// text as one record.
pub proof fn lemma_parser_round_trip(lines: Seq<Seq<u8>>, i: int)
    requires
        0 <= i <= lines.len(),
        all_normalized(lines),
    ensures
        (scan0(lines, i).rec matches Some(a) ==> scan0(split_lines_spec(a.raw), 0) == (ScanOut {
            rec: Some(a),
            next: split_lines_spec(a.raw).len() as int,
        })),
{
    assert(split_lines_spec(empty_acc().raw) =~= Seq::<Seq<u8>>::empty());
    assert(reparse_inv(empty_acc(), ScanPhase::Between));
    lemma_round_trip_gen(lines, i, empty_acc(), ScanPhase::Between);
}

// ───────────────────── streaming, one line at a time ─────────────────────────

/// Trailing carriage returns and newlines removed, as a line reader's
/// terminator handling does.
pub open spec fn strip_crlf(s: Seq<u8>) -> Seq<u8>
    decreases s.len(),
{
    if s.len() == 0 {
        s
    } else if s.last() == 13 || s.last() == 10 {
        strip_crlf(s.drop_last())
    } else {
        s
    }
}

/// One line's effect on the machine: the record it completes, if any,
/// and the state afterwards.  A header line while in the move section
/// completes the record and itself starts the next one, so no line ever
/// needs to be fed twice.
pub struct StreamOut {
    pub rec: Option<RecAcc>,
    pub acc: RecAcc,
    pub st: ScanPhase,
}

pub open spec fn stream_step(acc: RecAcc, st: ScanPhase, l: Seq<u8>) -> StreamOut {
    let t = trim_spec(l);
    if t.len() == 0 {
        match st {
            ScanPhase::Between => StreamOut { rec: None, acc, st: ScanPhase::Between },
            ScanPhase::Headers => StreamOut {
                rec: None,
                acc: RecAcc { raw: acc.raw.push(10), ..acc },
                st: ScanPhase::Moves,
            },
            ScanPhase::Moves => StreamOut {
                rec: Some(RecAcc { raw: acc.raw.push(10), ..acc }),
                acc: empty_acc(),
                st: ScanPhase::Between,
            },
        }
    } else if is_header(t) {
        match st {
            ScanPhase::Moves => StreamOut {
                rec: Some(acc),
                acc: RecAcc {
                    f: header_update(empty_fields(), t),
                    half: 0,
                    raw: l + seq![10u8],
                },
                st: ScanPhase::Headers,
            },
            _ => StreamOut {
                rec: None,
                acc: RecAcc {
                    f: header_update(acc.f, t),
                    half: acc.half,
                    raw: acc.raw + l + seq![10u8],
                },
                st: ScanPhase::Headers,
            },
        }
    } else {
        match st {
            ScanPhase::Between => StreamOut { rec: None, acc, st: ScanPhase::Between },
            ScanPhase::Headers => StreamOut {
                rec: None,
                acc: RecAcc {
                    f: acc.f,
                    half: acc.half + clk_count(t),
                    raw: acc.raw.push(10) + l + seq![10u8],
                },
                st: ScanPhase::Moves,
            },
            ScanPhase::Moves => StreamOut {
                rec: None,
                acc: RecAcc { half: acc.half + clk_count(t), raw: acc.raw + l + seq![10u8], ..acc },
                st: ScanPhase::Moves,
            },
        }
    }
}

/// The records that feeding `lines[i..]` one at a time, then finishing,
/// produces from state `(acc, st)`.
pub open spec fn stream_records(lines: Seq<Seq<u8>>, i: int, acc: RecAcc, st: ScanPhase) -> Seq<
    RecAcc,
>
    decreases lines.len() - i when 0 <= i <= lines.len()
{
    if i >= lines.len() {
        if st is Between {
            Seq::empty()
        } else {
            seq![acc]
        }
    } else {
        let o = stream_step(acc, st, lines[i]);
        (match o.rec {
            Some(a) => seq![a],
            None => Seq::empty(),
        }) + stream_records(lines, i + 1, o.acc, o.st)
    }
}

/// `records_from` unfolded one step.
proof fn lemma_records_from_unfold(lines: Seq<Seq<u8>>, j: int)
    requires
        0 <= j <= lines.len(),
    ensures
        records_from(lines, j) == (match scan0(lines, j) {
            ScanOut { rec: None, .. } => Seq::<RecAcc>::empty(),
            ScanOut { rec: Some(a), next } => seq![a] + records_from(lines, next),
        }),
{
    lemma_scan_bounds(lines, j, empty_acc(), ScanPhase::Between);
}

/// Feeding the machine line by line emits exactly the records the pull
/// parser produces: the push and pull views of the state machine agree.
pub proof fn lemma_stream_matches_batch(lines: Seq<Seq<u8>>, i: int, acc: RecAcc, st: ScanPhase)
    requires
        0 <= i <= lines.len(),
    ensures
        stream_records(lines, i, acc, st) == (match scan(lines, i, acc, st) {
            ScanOut { rec: None, .. } => Seq::<RecAcc>::empty(),
            ScanOut { rec: Some(a), next } => seq![a] + records_from(lines, next),
        }),
    decreases lines.len() - i,
{
    lemma_scan_bounds(lines, i, acc, st);
    if i == lines.len() {
        if !(st is Between) {
            assert(records_from(lines, i) =~= Seq::<RecAcc>::empty());
            assert(seq![acc] + records_from(lines, i) =~= seq![acc]);
        }
    } else {
        let l = lines[i];
        let t = trim_spec(l);
        let o = stream_step(acc, st, l);
        if t.len() == 0 {
            match st {
                ScanPhase::Between => {
                    lemma_stream_matches_batch(lines, i + 1, acc, ScanPhase::Between);
                    assert(Seq::<RecAcc>::empty() + stream_records(
                        lines,
                        i + 1,
                        acc,
                        ScanPhase::Between,
                    ) =~= stream_records(lines, i + 1, acc, ScanPhase::Between));
                },
                ScanPhase::Headers => {
                    let acc1 = RecAcc { raw: acc.raw.push(10), ..acc };
                    lemma_stream_matches_batch(lines, i + 1, acc1, ScanPhase::Moves);
                    assert(Seq::<RecAcc>::empty() + stream_records(
                        lines,
                        i + 1,
                        acc1,
                        ScanPhase::Moves,
                    ) =~= stream_records(lines, i + 1, acc1, ScanPhase::Moves));
                },
                ScanPhase::Moves => {
                    let a1 = RecAcc { raw: acc.raw.push(10), ..acc };
                    lemma_stream_matches_batch(lines, i + 1, empty_acc(), ScanPhase::Between);
                    lemma_records_from_unfold(lines, i + 1);
                    assert(scan0(lines, i + 1) == scan(
                        lines,
                        i + 1,
                        empty_acc(),
                        ScanPhase::Between,
                    ));
                    assert(records_from(lines, i + 1) == stream_records(
                        lines,
                        i + 1,
                        empty_acc(),
                        ScanPhase::Between,
                    ));
                },
            }
        } else if is_header(t) {
            match st {
                ScanPhase::Moves => {
                    // push-back: the pull parser restarts at this very line
                    let acc1 = RecAcc {
                        f: header_update(empty_fields(), t),
                        half: 0,
                        raw: l + seq![10u8],
                    };
                    let acc1b = RecAcc {
                        f: header_update(empty_fields(), t),
                        half: 0,
                        raw: Seq::<u8>::empty() + l + seq![10u8],
                    };
                    assert(acc1.raw =~= acc1b.raw);
                    assert(acc1 == acc1b);
                    lemma_stream_matches_batch(lines, i + 1, acc1, ScanPhase::Headers);
                    lemma_records_from_unfold(lines, i);
                    assert(empty_acc().raw + l + seq![10u8] =~= l + seq![10u8]);
                    assert(scan0(lines, i) == scan(lines, i + 1, acc1b, ScanPhase::Headers));
                    assert(records_from(lines, i) == stream_records(
                        lines,
                        i + 1,
                        acc1,
                        ScanPhase::Headers,
                    ));
                },
                _ => {
                    let acc1 = RecAcc {
                        f: header_update(acc.f, t),
                        half: acc.half,
                        raw: acc.raw + l + seq![10u8],
                    };
                    lemma_stream_matches_batch(lines, i + 1, acc1, ScanPhase::Headers);
                    assert(Seq::<RecAcc>::empty() + stream_records(
                        lines,
                        i + 1,
                        acc1,
                        ScanPhase::Headers,
                    ) =~= stream_records(lines, i + 1, acc1, ScanPhase::Headers));
                },
            }
        } else {
            match st {
                ScanPhase::Between => {
                    lemma_stream_matches_batch(lines, i + 1, acc, ScanPhase::Between);
                    assert(Seq::<RecAcc>::empty() + stream_records(
                        lines,
                        i + 1,
                        acc,
                        ScanPhase::Between,
                    ) =~= stream_records(lines, i + 1, acc, ScanPhase::Between));
                },
                ScanPhase::Headers => {
                    let acc1 = RecAcc {
                        f: acc.f,
                        half: acc.half + clk_count(t),
                        raw: acc.raw.push(10) + l + seq![10u8],
                    };
                    lemma_stream_matches_batch(lines, i + 1, acc1, ScanPhase::Moves);
                    assert(Seq::<RecAcc>::empty() + stream_records(
                        lines,
                        i + 1,
                        acc1,
                        ScanPhase::Moves,
                    ) =~= stream_records(lines, i + 1, acc1, ScanPhase::Moves));
                },
                ScanPhase::Moves => {
                    let acc1 = RecAcc {
                        half: acc.half + clk_count(t),
                        raw: acc.raw + l + seq![10u8],
                        ..acc
                    };
                    lemma_stream_matches_batch(lines, i + 1, acc1, ScanPhase::Moves);
                    assert(Seq::<RecAcc>::empty() + stream_records(
                        lines,
                        i + 1,
                        acc1,
                        ScanPhase::Moves,
                    ) =~= stream_records(lines, i + 1, acc1, ScanPhase::Moves));
                },
            }
        }
    }
}

/// The whole stream, fed from a fresh state, is the whole pull parse.
pub proof fn lemma_feed_equals_pull(lines: Seq<Seq<u8>>)
    ensures
        stream_records(lines, 0, empty_acc(), ScanPhase::Between) == records_from(lines, 0),
{
    lemma_stream_matches_batch(lines, 0, empty_acc(), ScanPhase::Between);
    lemma_records_from_unfold(lines, 0);
    assert(scan0(lines, 0) == scan(lines, 0, empty_acc(), ScanPhase::Between));
}

/// Dropping a suffix of carriage returns and newlines is what
/// `strip_crlf` does.
proof fn lemma_strip_crlf_at(s: Seq<u8>, e: int)
    requires
        0 <= e <= s.len(),
        forall|k: int| e <= k < s.len() ==> s[k] == 13 || s[k] == 10,
        e > 0 ==> !(s[e - 1] == 13 || s[e - 1] == 10),
    ensures
        strip_crlf(s) == s.subrange(0, e),
    decreases s.len() - e,
{
    if e == s.len() {
        assert(strip_crlf(s) =~= s.subrange(0, e));
    } else {
        let s1 = s.drop_last();
        lemma_strip_crlf_at(s1, e);
        assert(s1.subrange(0, e) =~= s.subrange(0, e));
    }
}

/// Streaming record parser fed one line at a time: the state of the
/// record in progress, bounded per record rather than per input.  The
/// caller reads lines from wherever they come — no byte of the archive
/// beyond the current record is ever held.
pub struct RecordStream {
    event: Vec<u8>,
    white: Vec<u8>,
    black: Vec<u8>,
    tc: Vec<u8>,
    half: u32,
    raw: Vec<u8>,
    st: ScanPhase,
}

impl RecordStream {
    /// The record in progress.
    pub closed spec fn acc_view(&self) -> RecAcc {
        RecAcc {
            f: FieldsS {
                event: self.event@,
                white: self.white@,
                black: self.black@,
                tc: self.tc@,
            },
            half: self.half as nat,
            raw: self.raw@,
        }
    }

    /// Where in the record structure the machine stands.
    pub closed spec fn phase_view(&self) -> ScanPhase {
        self.st
    }

    pub closed spec fn wf(&self) -> bool {
        &&& self.half as nat <= self.raw@.len()
        &&& self.raw@.len() <= MAX_INPUT_BYTES
        &&& (self.st is Between ==> self.acc_view() == empty_acc())
    }

    /// A fresh machine, between records.
    pub fn new() -> (p: Self)
        ensures
            p.wf(),
            p.acc_view() == empty_acc(),
            p.phase_view() is Between,
    {
        let p = RecordStream {
            event: Vec::new(),
            white: Vec::new(),
            black: Vec::new(),
            tc: Vec::new(),
            half: 0,
            raw: Vec::new(),
            st: ScanPhase::Between,
        };
        proof {
            assert(p.event@ =~= Seq::<u8>::empty());
            assert(p.white@ =~= Seq::<u8>::empty());
            assert(p.black@ =~= Seq::<u8>::empty());
            assert(p.tc@ =~= Seq::<u8>::empty());
            assert(p.raw@ =~= Seq::<u8>::empty());
        }
        p
    }

    /// How many bytes the record in progress holds; a caller can bound
    /// its memory per record with this before feeding the next line.
    pub fn pending_len(&self) -> (n: usize)
        ensures
            n == self.acc_view().raw.len(),
    {
        self.raw.len()
    }

    /// Move the record in progress out, leaving an empty accumulator in
    /// the same phase.
    fn take_acc(&mut self) -> (g: Game)
        ensures
            game_matches(&g, old(self).acc_view()),
            final(self).acc_view() == empty_acc(),
            final(self).phase_view() == old(self).phase_view(),
    {
        let mut event: Vec<u8> = Vec::new();
        let mut white: Vec<u8> = Vec::new();
        let mut black: Vec<u8> = Vec::new();
        let mut tc: Vec<u8> = Vec::new();
        let mut raw: Vec<u8> = Vec::new();
        core::mem::swap(&mut self.event, &mut event);
        core::mem::swap(&mut self.white, &mut white);
        core::mem::swap(&mut self.black, &mut black);
        core::mem::swap(&mut self.tc, &mut tc);
        core::mem::swap(&mut self.raw, &mut raw);
        let half = self.half;
        self.half = 0;
        proof {
            assert(self.event@ =~= Seq::<u8>::empty());
            assert(self.white@ =~= Seq::<u8>::empty());
            assert(self.black@ =~= Seq::<u8>::empty());
            assert(self.tc@ =~= Seq::<u8>::empty());
            assert(self.raw@ =~= Seq::<u8>::empty());
        }
        Game {
            info: GameInfo { event, white, black, time_control: tc, half_move_count: half },
            raw_pgn: raw,
        }
    }

    /// Feed one line, with or without its line terminator; the completed
    /// record comes back the moment a line ends it.  The effect is
    /// exactly one `stream_step` of the machine.
    pub fn feed_line(&mut self, line: &Vec<u8>) -> (r: Option<Game>)
        requires
            old(self).wf(),
            old(self).acc_view().raw.len() + line@.len() + 2 <= MAX_INPUT_BYTES,
        ensures
            final(self).wf(),
            ({
                let o = stream_step(
                    old(self).acc_view(),
                    old(self).phase_view(),
                    strip_crlf(line@),
                );
                &&& final(self).acc_view() == o.acc
                &&& final(self).phase_view() == o.st
                &&& (match r {
                    Some(g) => o.rec matches Some(a) && game_matches(&g, a),
                    None => o.rec is None,
                })
            }),
    {
        let ghost acc0 = self.acc_view();
        // normalize: strip the line terminator, if any
        let n = line.len();
        let mut e: usize = n;
        while e > 0 && (line[e - 1] == 13 || line[e - 1] == 10)
            invariant
                0 <= e <= n == line@.len(),
                forall|k: int| e <= k < n ==> line@[k] == 13 || line@[k] == 10,
            decreases e,
        {
            e -= 1;
        }
        proof {
            lemma_strip_crlf_at(line@, e as int);
        }
        let norm = copy_range(line, 0, e);
        let ghost l = norm@;
        let t = trim_line(&norm);
        if t.len() == 0 {
            match self.st {
                ScanPhase::Between => None,
                ScanPhase::Headers => {
                    self.raw.push(10);
                    self.st = ScanPhase::Moves;
                    None
                },
                ScanPhase::Moves => {
                    self.raw.push(10);
                    let g = self.take_acc();
                    self.st = ScanPhase::Between;
                    Some(g)
                },
            }
        } else if is_header_line(&t) {
            match self.st {
                ScanPhase::Moves => {
                    let g = self.take_acc();
                    extract_header_into(
                        &t,
                        &mut self.event,
                        &mut self.white,
                        &mut self.black,
                        &mut self.tc,
                    );
                    append_bytes(&mut self.raw, &norm);
                    self.raw.push(10);
                    self.st = ScanPhase::Headers;
                    proof {
                        assert(self.raw@ =~= l + seq![10u8]);
                        assert(self.acc_view().f == header_update(empty_fields(), trim_spec(l)));
                    }
                    Some(g)
                },
                _ => {
                    extract_header_into(
                        &t,
                        &mut self.event,
                        &mut self.white,
                        &mut self.black,
                        &mut self.tc,
                    );
                    append_bytes(&mut self.raw, &norm);
                    self.raw.push(10);
                    self.st = ScanPhase::Headers;
                    proof {
                        assert(self.raw@ =~= acc0.raw + l + seq![10u8]);
                    }
                    None
                },
            }
        } else {
            let cnt = count_clk(&t);
            match self.st {
                ScanPhase::Between => None,
                ScanPhase::Headers => {
                    self.half = self.half + cnt;
                    self.raw.push(10);
                    append_bytes(&mut self.raw, &norm);
                    self.raw.push(10);
                    self.st = ScanPhase::Moves;
                    proof {
                        assert(self.raw@ =~= acc0.raw.push(10) + l + seq![10u8]);
                    }
                    None
                },
                ScanPhase::Moves => {
                    self.half = self.half + cnt;
                    append_bytes(&mut self.raw, &norm);
                    self.raw.push(10);
                    proof {
                        assert(self.raw@ =~= acc0.raw + l + seq![10u8]);
                    }
                    None
                },
            }
        }
    }

    /// End of input: the record in progress, if at least one of its
    /// lines was seen, exactly as the pull parser reports it at end of
    /// input.  The machine is fresh afterwards.
    pub fn finish(&mut self) -> (r: Option<Game>)
        requires
            old(self).wf(),
        ensures
            final(self).wf(),
            final(self).acc_view() == empty_acc(),
            final(self).phase_view() is Between,
            (match r {
                Some(g) => !(old(self).phase_view() is Between) && game_matches(
                    &g,
                    old(self).acc_view(),
                ),
                None => old(self).phase_view() is Between,
            }),
    {
        match self.st {
            ScanPhase::Between => None,
            _ => {
                let g = self.take_acc();
                self.st = ScanPhase::Between;
                Some(g)
            },
        }
    }
}

} // verus!
