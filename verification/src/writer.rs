//! Buffered per-player writer.
//!
//! Record texts accumulate in memory per player; once the running byte
//! total reaches the configured budget, every player's pending text is
//! compressed as one independent frame and handed out as append
//! operations on that player's sharded artifact path.  The caller
//! performs the appends; the writer owns the buffering rule and the
//! paths.

use vstd::prelude::*;

verus! {

use crate::ledger::append_bytes;
use crate::ledger::bytes_eq;
use crate::pipeline::PipelineError;

/// What `zstd::stream::encode_all` at the fixed level produces for the
/// given bytes; a function of the input alone.
pub uninterp spec fn zstd_frame(data: Seq<u8>) -> Seq<u8>;

/// Relies on `zstd::stream::encode_all` at level 3: one compressed frame
/// whose content depends on the input bytes alone.
#[verifier::external_body]
fn compress_frame(data: &Vec<u8>) -> (r: Option<Vec<u8>>)
    ensures
        (match r {
            Some(v) => v@ == zstd_frame(data@),
            None => true,
        }),
{
    match zstd::stream::encode_all(data.as_slice(), 3) {
        Ok(v) => Some(v),
        Err(_) => None,
    }
}

/// One append operation produced by a flush: the artifact path and the
/// compressed frame to append there.
pub struct FlushEntry {
    pub path: Vec<u8>,
    pub data: Vec<u8>,
}

/// The (path, frame) pairs a sequence of flush entries denotes.
pub open spec fn entries_view(es: Seq<FlushEntry>) -> Seq<(Seq<u8>, Seq<u8>)> {
    Seq::new(es.len(), |i: int| (es[i].path@, es[i].data@))
}

/// An ASCII letter lowered, anything else kept.
pub open spec fn to_lower(b: u8) -> u8 {
    if 65 <= b <= 90 {
        (b + 32) as u8
    } else {
        b
    }
}

/// A UTF-8 continuation byte, which belongs to the character begun by
/// the nearest non-continuation byte before it.
pub open spec fn is_cont_byte(b: u8) -> bool {
    b & 0xC0 == 0x80
}

/// Start of the next character at or after `i`: the first index holding
/// a non-continuation byte, or the length.
pub open spec fn next_char_start(s: Seq<u8>, i: int) -> int
    decreases s.len() - i when 0 <= i <= s.len()
{
    if i >= s.len() {
        s.len() as int
    } else if !is_cont_byte(s[i]) {
        i
    } else {
        next_char_start(s, i + 1)
    }
}

/// Where the name's two-character prefix ends: the whole name when it
/// has at most two characters.
pub open spec fn two_char_end(s: Seq<u8>) -> int {
    if s.len() == 0 {
        0
    } else {
        let e1 = next_char_start(s, 1);
        if e1 == s.len() {
            s.len() as int
        } else {
            next_char_start(s, e1 + 1)
        }
    }
}

/// The shard directory name: the first two characters of the name (or
/// fewer if the name is shorter), ASCII letters lowered.
pub open spec fn shard_prefix(name: Seq<u8>) -> Seq<u8> {
    Seq::new(two_char_end(name) as nat, |i: int| to_lower(name[i]))
}

/// A player's artifact path: `<dir>/<shard>/<name>.pgn.zst`.
pub open spec fn artifact_path(dir: Seq<u8>, name: Seq<u8>) -> Seq<u8> {
    dir + seq![47u8] + shard_prefix(name) + seq![47u8] + name + crate::config::lit_ext_pgn_zst()
}

/// The in-memory buffer: per-player pending bytes, in first-use order,
/// and the running total.
pub struct BufState {
    pub rows: Seq<(Seq<u8>, Seq<u8>)>,
    pub size: nat,
}

pub open spec fn buf_unique(rows: Seq<(Seq<u8>, Seq<u8>)>) -> bool {
    forall|i: int, j: int| 0 <= i < j < rows.len() ==> rows[i].0 != rows[j].0
}

/// Total pending bytes.
pub open spec fn buf_total(rows: Seq<(Seq<u8>, Seq<u8>)>) -> nat
    decreases rows.len(),
{
    if rows.len() == 0 {
        0
    } else {
        buf_total(rows.drop_last()) + rows.last().1.len()
    }
}

/// First row index holding `name`, or the length if none.
pub open spec fn row_idx(rows: Seq<(Seq<u8>, Seq<u8>)>, name: Seq<u8>, i: int) -> int
    decreases rows.len() - i when 0 <= i <= rows.len()
{
    if i >= rows.len() {
        rows.len() as int
    } else if rows[i].0 == name {
        i
    } else {
        row_idx(rows, name, i + 1)
    }
}

/// The buffer after appending `text` plus a newline to `name`'s pending
/// bytes (a fresh row if `name` had none).
pub open spec fn buf_add(rows: Seq<(Seq<u8>, Seq<u8>)>, name: Seq<u8>, text: Seq<u8>) -> Seq<
    (Seq<u8>, Seq<u8>),
> {
    let i = row_idx(rows, name, 0);
    if i == rows.len() {
        rows.push((name, text + seq![10u8]))
    } else {
        rows.update(i, (name, rows[i].1 + text + seq![10u8]))
    }
}

/// The append operations one flush produces: one frame per player with
/// pending bytes, in buffer order.
pub open spec fn flush_of(dir: Seq<u8>, rows: Seq<(Seq<u8>, Seq<u8>)>) -> Seq<(Seq<u8>, Seq<u8>)>
    decreases rows.len(),
{
    if rows.len() == 0 {
        Seq::empty()
    } else {
        let rest = flush_of(dir, rows.drop_last());
        if rows.last().1.len() > 0 {
            rest.push((artifact_path(dir, rows.last().0), zstd_frame(rows.last().1)))
        } else {
            rest
        }
    }
}

/// One `add`: the new buffer state and the append operations it
/// triggered (empty unless the budget was reached, in which case the
/// whole buffer drains).
pub open spec fn wadd(
    dir: Seq<u8>,
    max: nat,
    st: BufState,
    name: Seq<u8>,
    text: Seq<u8>,
) -> (BufState, Seq<(Seq<u8>, Seq<u8>)>) {
    let rows1 = buf_add(st.rows, name, text);
    let size1 = st.size + text.len() + 1;
    if size1 >= max {
        (BufState { rows: Seq::empty(), size: 0 }, flush_of(dir, rows1))
    } else {
        (BufState { rows: rows1, size: size1 }, Seq::empty())
    }
}

/// `next_char_start` is the unique first non-continuation index.
proof fn lemma_next_char_start_char(s: Seq<u8>, i: int, j: int)
    requires
        0 <= i <= j <= s.len(),
        forall|k: int| i <= k < j ==> is_cont_byte(s[k]),
        j < s.len() ==> !is_cont_byte(s[j]),
    ensures
        next_char_start(s, i) == j,
    decreases j - i,
{
    if i < j {
        lemma_next_char_start_char(s, i + 1, j);
    }
}

/// `row_idx` is the unique first index, with nothing matching before it.
proof fn lemma_row_idx_char(rows: Seq<(Seq<u8>, Seq<u8>)>, name: Seq<u8>, i: int, j: int)
    requires
        0 <= i <= j <= rows.len(),
        forall|k: int| i <= k < j ==> rows[k].0 != name,
        j < rows.len() ==> rows[j].0 == name,
    ensures
        row_idx(rows, name, i) == j,
    decreases j - i,
{
    if i < j {
        lemma_row_idx_char(rows, name, i + 1, j);
    }
}

/// Appending to row `i` grows the total by what was appended.
proof fn lemma_buf_total_update(rows: Seq<(Seq<u8>, Seq<u8>)>, i: int, d: Seq<u8>)
    requires
        0 <= i < rows.len(),
    ensures
        buf_total(rows.update(i, (rows[i].0, rows[i].1 + d))) == buf_total(rows) + d.len(),
    decreases rows.len(),
{
    let r2 = rows.update(i, (rows[i].0, rows[i].1 + d));
    if i == rows.len() - 1 {
        assert(r2.drop_last() =~= rows.drop_last());
        assert(r2.last() == (rows[i].0, rows[i].1 + d));
    } else {
        assert(rows.drop_last().update(i, (rows[i].0, rows[i].1 + d)) =~= r2.drop_last());
        lemma_buf_total_update(rows.drop_last(), i, d);
        assert(r2.last() == rows.last());
    }
}

/// Buffered, compressing per-player writer.
pub struct PlayerWriter {
    players_dir: Vec<u8>,
    buffer: Vec<(Vec<u8>, Vec<u8>)>,
    buffer_size: usize,
    max_buffer_size: usize,
}

impl PlayerWriter {
    /// The per-player pending rows.
    pub closed spec fn rows(&self) -> Seq<(Seq<u8>, Seq<u8>)> {
        Seq::new(self.buffer@.len(), |i: int| (self.buffer@[i].0@, self.buffer@[i].1@))
    }

    pub closed spec fn dir_spec(&self) -> Seq<u8> {
        self.players_dir@
    }

    pub closed spec fn size_spec(&self) -> nat {
        self.buffer_size as nat
    }

    pub closed spec fn max_spec(&self) -> nat {
        self.max_buffer_size as nat
    }

    pub open spec fn buf_state(&self) -> BufState {
        BufState { rows: self.rows(), size: self.size_spec() }
    }

    pub closed spec fn wf(&self) -> bool {
        &&& buf_unique(self.rows())
        &&& self.buffer_size as nat == buf_total(self.rows())
    }

    /// A writer with an empty buffer.
    pub fn new(players_dir: Vec<u8>, max_buffer_size: usize) -> (w: Self)
        ensures
            w.wf(),
            w.dir_spec() == players_dir@,
            w.max_spec() == max_buffer_size as nat,
            w.rows() == Seq::<(Seq<u8>, Seq<u8>)>::empty(),
            w.size_spec() == 0,
    {
        let w = PlayerWriter {
            players_dir,
            buffer: Vec::new(),
            buffer_size: 0,
            max_buffer_size,
        };
        proof {
            assert(w.rows() =~= Seq::<(Seq<u8>, Seq<u8>)>::empty());
        }
        w
    }

    /// How many bytes are buffered; a caller can guard the byte-count
    /// arithmetic of `add_game` with this.
    pub fn buffered_len(&self) -> (n: usize)
        ensures
            n == self.size_spec(),
    {
        self.buffer_size
    }

    /// The artifact path for `name`: sharded under the first two lowered
    /// characters of the name.
    pub fn player_path(&self, name: &Vec<u8>) -> (r: Vec<u8>)
        ensures
            r@ == artifact_path(self.dir_spec(), name@),
    {
        let mut v: Vec<u8> = Vec::new();
        append_bytes(&mut v, &self.players_dir);
        v.push(47);
        let ghost after_dir = v@;
        // shard prefix: up to the end of the name's second character
        let n2 = name.len();
        let take: usize = if n2 == 0 {
            0
        } else {
            let mut e1: usize = 1;
            while e1 < n2 && (name[e1] & 0xC0) == 0x80
                invariant
                    1 <= e1 <= n2 == name@.len(),
                    forall|k: int| 1 <= k < e1 ==> is_cont_byte(name@[k]),
                decreases n2 - e1,
            {
                e1 += 1;
            }
            proof {
                lemma_next_char_start_char(name@, 1, e1 as int);
            }
            if e1 == n2 {
                n2
            } else {
                let mut e2: usize = e1 + 1;
                while e2 < n2 && (name[e2] & 0xC0) == 0x80
                    invariant
                        e1 + 1 <= e2 <= n2 == name@.len(),
                        forall|k: int| e1 + 1 <= k < e2 ==> is_cont_byte(name@[k]),
                    decreases n2 - e2,
                {
                    e2 += 1;
                }
                proof {
                    lemma_next_char_start_char(name@, e1 + 1, e2 as int);
                }
                e2
            }
        };
        proof {
            assert(take as int == two_char_end(name@));
        }
        let mut i: usize = 0;
        while i < take
            invariant
                0 <= i <= take <= name@.len(),
                take as int == two_char_end(name@),
                v@ == after_dir + Seq::new(i as nat, |k: int| to_lower(name@[k])),
            decreases take - i,
        {
            let b = name[i];
            let lb: u8 = if 65 <= b && b <= 90 {
                b + 32
            } else {
                b
            };
            v.push(lb);
            proof {
                assert(after_dir + Seq::new((i + 1) as nat, |k: int| to_lower(name@[k]))
                    =~= (after_dir + Seq::new(i as nat, |k: int| to_lower(name@[k]))).push(
                    to_lower(name@[i as int]),
                ));
            }
            i += 1;
        }
        proof {
            assert(Seq::new(take as nat, |k: int| to_lower(name@[k])) =~= shard_prefix(name@));
        }
        v.push(47);
        append_bytes(&mut v, name);
        let ext = crate::config::make_ext_pgn_zst();
        append_bytes(&mut v, &ext);
        proof {
            assert(v@ =~= artifact_path(self.dir_spec(), name@));
        }
        v
    }

    /// Append one record's text (plus a trailing newline) to `player`'s
    /// pending bytes; when the running total reaches the budget, drain
    /// the whole buffer and hand back the append operations.
    pub fn add_game(&mut self, player: &Vec<u8>, pgn: &Vec<u8>) -> (r: Result<
        Option<Vec<FlushEntry>>,
        PipelineError,
    >)
        requires
            old(self).wf(),
            old(self).size_spec() + pgn@.len() + 1 <= usize::MAX,
        ensures
            final(self).dir_spec() == old(self).dir_spec(),
            final(self).max_spec() == old(self).max_spec(),
            (match r {
                Ok(out) => {
                    let (st1, ops) = wadd(
                        old(self).dir_spec(),
                        old(self).max_spec(),
                        old(self).buf_state(),
                        player@,
                        pgn@,
                    );
                    &&& final(self).wf()
                    &&& final(self).buf_state() == st1
                    &&& (match out {
                        Some(es) => old(self).size_spec() + pgn@.len() + 1 >= old(self).max_spec()
                            && entries_view(es@) == ops,
                        None => old(self).size_spec() + pgn@.len() + 1 < old(self).max_spec()
                            && ops.len() == 0,
                    })
                },
                Err(e) => e is Compress && final(self).wf() && final(self).buf_state()
                    == (BufState {
                    rows: buf_add(old(self).rows(), player@, pgn@),
                    size: (old(self).size_spec() + pgn@.len() + 1) as nat,
                }),
            }),
    {
        let ghost rows0 = self.rows();
        let i = find_row(&self.buffer, player);
        proof {
            assert(forall|k: int| 0 <= k < rows0.len() ==> rows0[k].0 == self.buffer@[k].0@);
            if i < self.buffer.len() {
                lemma_row_idx_char(rows0, player@, 0, i as int);
            } else {
                lemma_row_idx_char(rows0, player@, 0, rows0.len() as int);
            }
        }
        if i < self.buffer.len() {
            let mut d: Vec<u8> = Vec::new();
            core::mem::swap(&mut self.buffer[i].1, &mut d);
            append_bytes(&mut d, pgn);
            d.push(10);
            let ghost old_data = rows0[i as int].1;
            proof {
                assert(d@ =~= old_data + pgn@ + seq![10u8]);
            }
            self.buffer[i].1 = d;
            proof {
                assert(self.rows() =~= rows0.update(
                    i as int,
                    (player@, old_data + pgn@ + seq![10u8]),
                ));
                lemma_buf_total_update(rows0, i as int, pgn@ + seq![10u8]);
                assert(rows0[i as int].1 + (pgn@ + seq![10u8]) =~= old_data + pgn@ + seq![10u8]);
                assert forall|a: int, b: int|
                    0 <= a < b < self.rows().len() implies self.rows()[a].0
                    != self.rows()[b].0 by {
                    assert(self.rows()[a].0 == rows0[a].0);
                    assert(self.rows()[b].0 == rows0[b].0);
                }
            }
        } else {
            let mut key: Vec<u8> = Vec::new();
            append_bytes(&mut key, player);
            let mut d: Vec<u8> = Vec::new();
            append_bytes(&mut d, pgn);
            d.push(10);
            proof {
                assert(d@ =~= pgn@ + seq![10u8]);
            }
            self.buffer.push((key, d));
            proof {
                assert(self.rows() =~= rows0.push((player@, pgn@ + seq![10u8])));
                assert(self.rows().drop_last() =~= rows0);
                assert forall|a: int, b: int|
                    0 <= a < b < self.rows().len() implies self.rows()[a].0
                    != self.rows()[b].0 by {
                    if b < self.rows().len() - 1 {
                        assert(self.rows()[a].0 == rows0[a].0);
                        assert(self.rows()[b].0 == rows0[b].0);
                    } else {
                        assert(self.rows()[a].0 == rows0[a].0);
                    }
                }
            }
        }
        self.buffer_size = self.buffer_size + pgn.len() + 1;
        if self.buffer_size >= self.max_buffer_size {
            let ghost rows1 = self.rows();
            match self.flush_all() {
                Ok(es) => Ok(Some(es)),
                Err(e) => Err(e),
            }
        } else {
            Ok(None)
        }
    }

    /// Drain the whole buffer: for every player with pending bytes, in
    /// buffer order, compress them as one frame and hand back the append
    /// operation for that player's artifact.  No player is left half
    /// flushed: on failure the buffer is untouched.  An empty buffer
    /// always flushes successfully, to nothing, so flushing twice is the
    /// same as flushing once.
    pub fn flush_all(&mut self) -> (r: Result<Vec<FlushEntry>, PipelineError>)
        requires
            old(self).wf(),
        ensures
            final(self).dir_spec() == old(self).dir_spec(),
            final(self).max_spec() == old(self).max_spec(),
            old(self).rows().len() == 0 ==> r is Ok,
            (match r {
                Ok(es) => final(self).wf() && final(self).rows() == Seq::<
                    (Seq<u8>, Seq<u8>),
                >::empty() && final(self).size_spec() == 0 && entries_view(es@) == flush_of(
                    old(self).dir_spec(),
                    old(self).rows(),
                ),
                Err(e) => e is Compress && *final(self) == *old(self),
            }),
    {
        let ghost rows = self.rows();
        let n = self.buffer.len();
        let mut out: Vec<FlushEntry> = Vec::new();
        let mut i: usize = 0;
        proof {
            assert(entries_view(out@) =~= flush_of(self.dir_spec(), rows.take(0)));
        }
        while i < n
            invariant
                0 <= i <= n == rows.len(),
                rows == self.rows(),
                self == old(self),
                self.wf(),
                entries_view(out@) =~= flush_of(self.dir_spec(), rows.take(i as int)),
            decreases n - i,
        {
            proof {
                assert(rows.take(i + 1).drop_last() =~= rows.take(i as int));
                assert(rows.take(i + 1).last() == rows[i as int]);
            }
            if self.buffer[i].1.len() > 0 {
                let frame = match compress_frame(&self.buffer[i].1) {
                    Some(f) => f,
                    None => {
                        return Err(PipelineError::Compress);
                    },
                };
                let path = self.player_path(&self.buffer[i].0);
                let ghost out0 = out@;
                out.push(FlushEntry { path, data: frame });
                proof {
                    assert(entries_view(out@) =~= entries_view(out0).push(
                        (
                            artifact_path(self.dir_spec(), rows[i as int].0),
                            zstd_frame(rows[i as int].1),
                        ),
                    ));
                }
            }
            i += 1;
        }
        proof {
            assert(rows.take(n as int) =~= rows);
        }
        self.buffer = Vec::new();
        self.buffer_size = 0;
        proof {
            assert(self.rows() =~= Seq::<(Seq<u8>, Seq<u8>)>::empty());
        }
        Ok(out)
    }
}

/// First buffer index whose key equals `name`, or the length if none.
fn find_row(buf: &Vec<(Vec<u8>, Vec<u8>)>, name: &Vec<u8>) -> (i: usize)
    ensures
        0 <= i <= buf@.len(),
        i < buf@.len() ==> buf@[i as int].0@ == name@,
        forall|k: int| 0 <= k < i ==> buf@[k].0@ != name@,
{
    let n = buf.len();
    let mut i: usize = 0;
    while i < n
        invariant
            0 <= i <= n == buf@.len(),
            forall|k: int| 0 <= k < i ==> buf@[k].0@ != name@,
        decreases n - i,
    {
        if bytes_eq(&buf[i].0, name) {
            return i;
        }
        i += 1;
    }
    i
}


} // verus!
