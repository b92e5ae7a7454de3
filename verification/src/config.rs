//! Pipeline configuration.
//!
//! All textual values are byte strings; paths use `/` as separator and
//! are interpreted by the caller that performs the file system work.

use vstd::prelude::*;

verus! {

/// Main configuration for the extraction pipeline.
pub struct Config {
    /// Identifiers (source URLs) of the compressed archives to process,
    /// in order.
    pub dataset_urls: Vec<Vec<u8>>,
    /// Base output directory.
    pub output_dir: Vec<u8>,
    /// Directory for downloaded compressed archives.
    pub temp_dir: Vec<u8>,
    /// Path of the index database file.
    pub db_path: Vec<u8>,
    /// Event header filter; a record's event must equal it exactly.
    pub event_filter: Vec<u8>,
    /// Optional time-control filter; `None` accepts any.
    pub time_control_filter: Option<Vec<u8>>,
    /// Minimum number of full moves (per side) for a record to count.
    pub min_full_moves: u32,
    /// Minimum qualifying games per player per month.
    pub min_monthly_games: u32,
    /// Minimum cumulative games per player across all archives.
    pub min_total_games: u32,
    /// Buffer budget in bytes before the writer flushes.
    pub write_buffer_max_bytes: usize,
}

/// The filter settings of a configuration, as the specifications see
/// them.
pub struct FilterCfg {
    pub event: Seq<u8>,
    pub tc: Option<Seq<u8>>,
    pub min_full_moves: nat,
}

impl Config {
    /// The filter settings this configuration asks for.
    pub open spec fn filter_view(&self) -> FilterCfg {
        FilterCfg {
            event: self.event_filter@,
            tc: (match self.time_control_filter {
                Some(ref t) => Some(t@),
                None => None,
            }),
            min_full_moves: self.min_full_moves as nat,
        }
    }

    /// Directory holding the per-player output artifacts.
    pub fn players_dir(&self) -> (r: Vec<u8>)
        ensures
            r@ == self.output_dir@ + lit_players_seg(),
    {
        let mut v: Vec<u8> = Vec::new();
        let mut i: usize = 0;
        while i < self.output_dir.len()
            invariant
                0 <= i <= self.output_dir@.len(),
                v@ == self.output_dir@.subrange(0, i as int),
            decreases self.output_dir@.len() - i,
        {
            v.push(self.output_dir[i]);
            assert(self.output_dir@.subrange(0, i + 1) =~= self.output_dir@.subrange(
                0,
                i as int,
            ).push(self.output_dir@[i as int]));
            i += 1;
        }
        assert(self.output_dir@.subrange(0, self.output_dir@.len() as int) =~= self.output_dir@);
        let seg = make_players_seg();
        let mut j: usize = 0;
        let ghost base = v@;
        while j < seg.len()
            invariant
                0 <= j <= seg@.len(),
                seg@ == lit_players_seg(),
                v@ == base + seg@.subrange(0, j as int),
            decreases seg@.len() - j,
        {
            v.push(seg[j]);
            assert(base + seg@.subrange(0, j + 1) =~= (base + seg@.subrange(0, j as int)).push(
                seg@[j as int],
            ));
            j += 1;
        }
        assert(seg@.subrange(0, seg@.len() as int) =~= seg@);
        v
    }

    /// The default configuration: rated blitz at 300+0 over the twelve
    /// months of 2025, with a 2 GiB write buffer.
    pub fn default_blitz_300() -> (c: Config)
        ensures
            c.dataset_urls.deep_view().len() == 12,
            forall|m: int|
                0 <= m < 12 ==> #[trigger] c.dataset_urls.deep_view()[m] == lit_url_prefix_2025()
                    + month_two_digits((m + 1) as nat) + lit_ext_pgn_zst(),
            c.output_dir@ == lit_dir_output(),
            c.temp_dir@ == lit_dir_temp(),
            c.db_path@ == lit_db_file(),
            c.event_filter@ == lit_event_filter_blitz(),
            (c.time_control_filter matches Some(t) && t@ == lit_tc_300()),
            c.min_full_moves == 30,
            c.min_monthly_games == 25,
            c.min_total_games == 100,
            c.write_buffer_max_bytes == 0x80000000usize,
    {
        let mut urls: Vec<Vec<u8>> = Vec::new();
        let mut m: u32 = 1;
        while m <= 12
            invariant
                1 <= m <= 13,
                urls.deep_view().len() == m - 1,
                forall|k: int|
                    0 <= k < m - 1 ==> #[trigger] urls.deep_view()[k] == lit_url_prefix_2025()
                        + month_two_digits((k + 1) as nat) + lit_ext_pgn_zst(),
            decreases 13 - m,
        {
            let mut u = make_url_prefix_2025();
            let ghost prefix = u@;
            // two-digit month
            let d1: u8 = 48 + (m / 10) as u8;
            let d2: u8 = 48 + (m % 10) as u8;
            u.push(d1);
            u.push(d2);
            proof {
                assert(u@ =~= prefix + month_two_digits(m as nat));
            }
            let ghost with_month = u@;
            let ext = make_ext_pgn_zst();
            let mut j: usize = 0;
            while j < ext.len()
                invariant
                    0 <= j <= ext@.len(),
                    ext@ == lit_ext_pgn_zst(),
                    u@ == with_month + ext@.subrange(0, j as int),
                decreases ext@.len() - j,
            {
                u.push(ext[j]);
                assert(with_month + ext@.subrange(0, j + 1) =~= (with_month + ext@.subrange(
                    0,
                    j as int,
                )).push(ext@[j as int]));
                j += 1;
            }
            assert(ext@.subrange(0, ext@.len() as int) =~= ext@);
            let ghost urls0 = urls.deep_view();
            urls.push(u);
            proof {
                assert(urls.deep_view() =~~= urls0.push(
                    prefix + month_two_digits(m as nat) + lit_ext_pgn_zst(),
                ));
            }
            m += 1;
        }
        Config {
            dataset_urls: urls,
            output_dir: make_dir_output(),
            temp_dir: make_dir_temp(),
            db_path: make_db_file(),
            event_filter: make_event_filter_blitz(),
            time_control_filter: Some(make_tc_300()),
            min_full_moves: 30,
            min_monthly_games: 25,
            min_total_games: 100,
            write_buffer_max_bytes: 0x80000000usize,
        }
    }
}

/// A month number written as two ASCII digits.
pub open spec fn month_two_digits(m: nat) -> Seq<u8> {
    seq![(48 + m / 10) as u8, (48 + m % 10) as u8]
}

/// The bytes of `"Rated Blitz game"`.
pub open spec fn lit_event_filter_blitz() -> Seq<u8> {
    seq![82u8, 97u8, 116u8, 101u8, 100u8, 32u8, 66u8, 108u8, 105u8, 116u8, 122u8, 32u8, 103u8, 97u8, 109u8, 101u8]
}

pub fn make_event_filter_blitz() -> (r: Vec<u8>)
    ensures
        r@ == lit_event_filter_blitz(),
{
    let mut v: Vec<u8> = Vec::new();
    v.push(82);
    v.push(97);
    v.push(116);
    v.push(101);
    v.push(100);
    v.push(32);
    v.push(66);
    v.push(108);
    v.push(105);
    v.push(116);
    v.push(122);
    v.push(32);
    v.push(103);
    v.push(97);
    v.push(109);
    v.push(101);
    assert(v@ =~= lit_event_filter_blitz());
    v
}

/// The bytes of `"300+0"`.
pub open spec fn lit_tc_300() -> Seq<u8> {
    seq![51u8, 48u8, 48u8, 43u8, 48u8]
}

pub fn make_tc_300() -> (r: Vec<u8>)
    ensures
        r@ == lit_tc_300(),
{
    let mut v: Vec<u8> = Vec::new();
    v.push(51);
    v.push(48);
    v.push(48);
    v.push(43);
    v.push(48);
    assert(v@ =~= lit_tc_300());
    v
}

/// The bytes of `"https://database.lichess.org/standard/lichess_db_standard_rated_2025-"`.
pub open spec fn lit_url_prefix_2025() -> Seq<u8> {
    seq![104u8, 116u8, 116u8, 112u8, 115u8, 58u8, 47u8, 47u8, 100u8, 97u8, 116u8, 97u8, 98u8, 97u8, 115u8, 101u8, 46u8, 108u8, 105u8, 99u8, 104u8, 101u8, 115u8, 115u8, 46u8, 111u8, 114u8, 103u8, 47u8, 115u8, 116u8, 97u8, 110u8, 100u8, 97u8, 114u8, 100u8, 47u8, 108u8, 105u8, 99u8, 104u8, 101u8, 115u8, 115u8, 95u8, 100u8, 98u8, 95u8, 115u8, 116u8, 97u8, 110u8, 100u8, 97u8, 114u8, 100u8, 95u8, 114u8, 97u8, 116u8, 101u8, 100u8, 95u8, 50u8, 48u8, 50u8, 53u8, 45u8]
}

#[verifier::rlimit(60)]
pub fn make_url_prefix_2025() -> (r: Vec<u8>)
    ensures
        r@ == lit_url_prefix_2025(),
{
    let mut v: Vec<u8> = Vec::new();
    v.push(104);
    v.push(116);
    v.push(116);
    v.push(112);
    v.push(115);
    v.push(58);
    v.push(47);
    v.push(47);
    v.push(100);
    v.push(97);
    v.push(116);
    v.push(97);
    v.push(98);
    v.push(97);
    v.push(115);
    v.push(101);
    v.push(46);
    v.push(108);
    v.push(105);
    v.push(99);
    v.push(104);
    v.push(101);
    v.push(115);
    v.push(115);
    v.push(46);
    v.push(111);
    v.push(114);
    v.push(103);
    v.push(47);
    v.push(115);
    v.push(116);
    v.push(97);
    v.push(110);
    v.push(100);
    v.push(97);
    v.push(114);
    v.push(100);
    v.push(47);
    v.push(108);
    v.push(105);
    v.push(99);
    v.push(104);
    v.push(101);
    v.push(115);
    v.push(115);
    v.push(95);
    v.push(100);
    v.push(98);
    v.push(95);
    v.push(115);
    v.push(116);
    v.push(97);
    v.push(110);
    v.push(100);
    v.push(97);
    v.push(114);
    v.push(100);
    v.push(95);
    v.push(114);
    v.push(97);
    v.push(116);
    v.push(101);
    v.push(100);
    v.push(95);
    v.push(50);
    v.push(48);
    v.push(50);
    v.push(53);
    v.push(45);
    assert(v@ =~= lit_url_prefix_2025());
    v
}

/// The bytes of `".pgn.zst"`.
pub open spec fn lit_ext_pgn_zst() -> Seq<u8> {
    seq![46u8, 112u8, 103u8, 110u8, 46u8, 122u8, 115u8, 116u8]
}

pub fn make_ext_pgn_zst() -> (r: Vec<u8>)
    ensures
        r@ == lit_ext_pgn_zst(),
{
    let mut v: Vec<u8> = Vec::new();
    v.push(46);
    v.push(112);
    v.push(103);
    v.push(110);
    v.push(46);
    v.push(122);
    v.push(115);
    v.push(116);
    assert(v@ =~= lit_ext_pgn_zst());
    v
}

/// The bytes of `"pgn_output"`.
pub open spec fn lit_dir_output() -> Seq<u8> {
    seq![112u8, 103u8, 110u8, 95u8, 111u8, 117u8, 116u8, 112u8, 117u8, 116u8]
}

pub fn make_dir_output() -> (r: Vec<u8>)
    ensures
        r@ == lit_dir_output(),
{
    let mut v: Vec<u8> = Vec::new();
    v.push(112);
    v.push(103);
    v.push(110);
    v.push(95);
    v.push(111);
    v.push(117);
    v.push(116);
    v.push(112);
    v.push(117);
    v.push(116);
    assert(v@ =~= lit_dir_output());
    v
}

/// The bytes of `"pgn_output/temp"`.
pub open spec fn lit_dir_temp() -> Seq<u8> {
    seq![112u8, 103u8, 110u8, 95u8, 111u8, 117u8, 116u8, 112u8, 117u8, 116u8, 47u8, 116u8, 101u8, 109u8, 112u8]
}

pub fn make_dir_temp() -> (r: Vec<u8>)
    ensures
        r@ == lit_dir_temp(),
{
    let mut v: Vec<u8> = Vec::new();
    v.push(112);
    v.push(103);
    v.push(110);
    v.push(95);
    v.push(111);
    v.push(117);
    v.push(116);
    v.push(112);
    v.push(117);
    v.push(116);
    v.push(47);
    v.push(116);
    v.push(101);
    v.push(109);
    v.push(112);
    assert(v@ =~= lit_dir_temp());
    v
}

/// The bytes of `"pgn_output/index.db"`.
pub open spec fn lit_db_file() -> Seq<u8> {
    seq![112u8, 103u8, 110u8, 95u8, 111u8, 117u8, 116u8, 112u8, 117u8, 116u8, 47u8, 105u8, 110u8, 100u8, 101u8, 120u8, 46u8, 100u8, 98u8]
}

pub fn make_db_file() -> (r: Vec<u8>)
    ensures
        r@ == lit_db_file(),
{
    let mut v: Vec<u8> = Vec::new();
    v.push(112);
    v.push(103);
    v.push(110);
    v.push(95);
    v.push(111);
    v.push(117);
    v.push(116);
    v.push(112);
    v.push(117);
    v.push(116);
    v.push(47);
    v.push(105);
    v.push(110);
    v.push(100);
    v.push(101);
    v.push(120);
    v.push(46);
    v.push(100);
    v.push(98);
    assert(v@ =~= lit_db_file());
    v
}

/// The bytes of `"pgn_output/players"`.
pub open spec fn lit_dir_players() -> Seq<u8> {
    seq![112u8, 103u8, 110u8, 95u8, 111u8, 117u8, 116u8, 112u8, 117u8, 116u8, 47u8, 112u8, 108u8, 97u8, 121u8, 101u8, 114u8, 115u8]
}

pub fn make_dir_players() -> (r: Vec<u8>)
    ensures
        r@ == lit_dir_players(),
{
    let mut v: Vec<u8> = Vec::new();
    v.push(112);
    v.push(103);
    v.push(110);
    v.push(95);
    v.push(111);
    v.push(117);
    v.push(116);
    v.push(112);
    v.push(117);
    v.push(116);
    v.push(47);
    v.push(112);
    v.push(108);
    v.push(97);
    v.push(121);
    v.push(101);
    v.push(114);
    v.push(115);
    assert(v@ =~= lit_dir_players());
    v
}

/// The bytes of `"/players"`.
pub open spec fn lit_players_seg() -> Seq<u8> {
    seq![47u8, 112u8, 108u8, 97u8, 121u8, 101u8, 114u8, 115u8]
}

pub fn make_players_seg() -> (r: Vec<u8>)
    ensures
        r@ == lit_players_seg(),
{
    let mut v: Vec<u8> = Vec::new();
    v.push(47);
    v.push(112);
    v.push(108);
    v.push(97);
    v.push(121);
    v.push(101);
    v.push(114);
    v.push(115);
    assert(v@ =~= lit_players_seg());
    v
}

} // verus!
