//! Durable index of per-player counts and processed archives.
//!
//! Three relations live in one SQLite file: cumulative totals per player,
//! games per (player, month) updated by replacement, and the set of
//! archive identifiers already fully processed.  The verified code sees
//! the store through three content maps and a handful of trusted
//! operations whose contracts state exactly how each statement changes
//! those maps.  Names, months and identifiers are stored as blobs so the
//! mapping between bytes and rows is one to one.

use vstd::prelude::*;

verus! {

use crate::ledger::Ledger;
use crate::pipeline::PipelineError;

#[verifier::external_type_specification]
#[verifier::external_body]
pub struct ExConnection(rusqlite::Connection);

#[verifier::external_type_specification]
#[verifier::external_body]
pub struct ExSqlError(rusqlite::Error);

/// The `players` relation: player name to cumulative total of qualifying
/// games across all processed archives.
pub uninterp spec fn totals_of(c: rusqlite::Connection) -> Map<Seq<u8>, int>;

/// The `monthly_counts` relation: (player, month) to that month's count.
pub uninterp spec fn monthly_of(c: rusqlite::Connection) -> Map<(Seq<u8>, Seq<u8>), int>;

/// The `processed_datasets` relation: archive identifiers already fully
/// processed.
pub uninterp spec fn processed_of(c: rusqlite::Connection) -> Set<Seq<u8>>;

/// Whether an explicit transaction is open on this connection.
pub uninterp spec fn in_txn_of(c: rusqlite::Connection) -> bool;

/// The totals as they stood when the open transaction began; `ROLLBACK`
/// restores them.
pub uninterp spec fn saved_totals_of(c: rusqlite::Connection) -> Map<Seq<u8>, int>;

/// The monthly relation as it stood when the open transaction began.
pub uninterp spec fn saved_monthly_of(c: rusqlite::Connection) -> Map<(Seq<u8>, Seq<u8>), int>;

/// The processed set as it stood when the open transaction began.
pub uninterp spec fn saved_processed_of(c: rusqlite::Connection) -> Set<Seq<u8>>;

// ───────────────────────── trusted operations ────────────────────────────────

/// Relies on `rusqlite::Connection::open`: opens (creating if absent) the
/// database file at the given path; the relations of any store are
/// finite tables.
#[verifier::external_body]
fn db_open(path: &Vec<u8>) -> (r: Result<rusqlite::Connection, rusqlite::Error>)
    ensures
        (match r {
            Ok(c) => totals_of(c).dom().finite() && monthly_of(c).dom().finite() && processed_of(
                c,
            ).finite() && !in_txn_of(c),
            Err(_) => true,
        }),
{
    let p = String::from_utf8_lossy(path.as_slice()).into_owned();
    rusqlite::Connection::open(p)
}

/// Relies on `rusqlite::Connection::execute_batch` with `CREATE TABLE IF
/// NOT EXISTS`: ensures the three relations exist; existing rows are
/// untouched, and the relations of a store are finite tables.
#[verifier::external_body]
fn db_init(conn: &mut rusqlite::Connection) -> (r: Result<(), rusqlite::Error>)
    requires
        !in_txn_of(*old(conn)),
    ensures
        (match r {
            Ok(_) => totals_of(*final(conn)).dom().finite() && monthly_of(
                *final(conn),
            ).dom().finite() && processed_of(*final(conn)).finite() && !in_txn_of(*final(conn)),
            Err(_) => true,
        }),
{
    conn.execute_batch(
        "PRAGMA journal_mode = WAL; PRAGMA synchronous = NORMAL; \
         CREATE TABLE IF NOT EXISTS players \
             (name BLOB PRIMARY KEY, total_games INTEGER NOT NULL DEFAULT 0); \
         CREATE TABLE IF NOT EXISTS monthly_counts \
             (player BLOB NOT NULL, month BLOB NOT NULL, games INTEGER NOT NULL, \
              PRIMARY KEY (player, month)); \
         CREATE TABLE IF NOT EXISTS processed_datasets (url BLOB PRIMARY KEY); \
         CREATE INDEX IF NOT EXISTS idx_monthly_player ON monthly_counts(player); \
         CREATE INDEX IF NOT EXISTS idx_players_total ON players(total_games);",
    )
}

/// Relies on `rusqlite::Connection::query_row` with `SELECT COUNT(*) FROM
/// processed_datasets WHERE url = ?1`: the count is positive exactly
/// when the identifier is in the relation.
#[verifier::external_body]
fn db_processed_count(conn: &rusqlite::Connection, url: &Vec<u8>) -> (r: Result<
    i64,
    rusqlite::Error,
>)
    ensures
        (match r {
            Ok(n) => (n > 0) == processed_of(*conn).contains(url@),
            Err(_) => true,
        }),
{
    conn.query_row(
        "SELECT COUNT(*) FROM processed_datasets WHERE url = ?1",
        (url.as_slice(),),
        |row| row.get(0),
    )
}

/// Relies on `rusqlite::Connection::execute` with `INSERT OR IGNORE INTO
/// processed_datasets`: adds the identifier to the set and touches
/// nothing else.  In autocommit mode a failed statement is undone
/// entirely, so on error every relation is as it was.
#[verifier::external_body]
fn db_mark_processed(conn: &mut rusqlite::Connection, url: &Vec<u8>) -> (r: Result<
    (),
    rusqlite::Error,
>)
    requires
        !in_txn_of(*old(conn)),
    ensures
        !in_txn_of(*final(conn)),
        (match r {
            Ok(_) => processed_of(*final(conn)) == processed_of(*old(conn)).insert(url@)
                && totals_of(*final(conn)) == totals_of(*old(conn)) && monthly_of(*final(conn))
                == monthly_of(*old(conn)) && processed_of(*final(conn)).finite() == processed_of(
                *old(conn),
            ).finite(),
            Err(_) => processed_of(*final(conn)) == processed_of(*old(conn)) && totals_of(
                *final(conn),
            ) == totals_of(*old(conn)) && monthly_of(*final(conn)) == monthly_of(*old(conn)),
        }),
{
    conn.execute("INSERT OR IGNORE INTO processed_datasets (url) VALUES (?1)", (url.as_slice(),))?;
    Ok(())
}

/// What a failed statement inside an open transaction leaves behind:
/// either the statement was undone by itself and the transaction is
/// still open with everything as it was, or the error rolled the whole
/// transaction back to the state saved at `BEGIN`.  The snapshot names
/// themselves always refer to the most recent `BEGIN` and do not move.
pub open spec fn stmt_failure_state(c0: rusqlite::Connection, c1: rusqlite::Connection) -> bool {
    &&& saved_totals_of(c1) == saved_totals_of(c0)
    &&& saved_monthly_of(c1) == saved_monthly_of(c0)
    &&& saved_processed_of(c1) == saved_processed_of(c0)
    &&& ({
        ||| (totals_of(c1) == totals_of(c0) && monthly_of(c1) == monthly_of(c0) && processed_of(
            c1,
        ) == processed_of(c0) && in_txn_of(c1))
        ||| (totals_of(c1) == saved_totals_of(c0) && monthly_of(c1) == saved_monthly_of(c0)
            && processed_of(c1) == saved_processed_of(c0) && !in_txn_of(c1))
    })
}

/// The snapshot and transaction flag a successful in-transaction
/// statement preserves.
pub open spec fn stmt_keeps_txn(c0: rusqlite::Connection, c1: rusqlite::Connection) -> bool {
    &&& in_txn_of(c1)
    &&& saved_totals_of(c1) == saved_totals_of(c0)
    &&& saved_monthly_of(c1) == saved_monthly_of(c0)
    &&& saved_processed_of(c1) == saved_processed_of(c0)
}

/// Relies on `rusqlite::Connection::execute` with `INSERT OR REPLACE INTO
/// monthly_counts`: sets the (player, month) row to `games`, replacing
/// any earlier row for that pair, and touches nothing else.
#[verifier::external_body]
fn db_replace_monthly(
    conn: &mut rusqlite::Connection,
    player: &Vec<u8>,
    month: &Vec<u8>,
    games: u32,
) -> (r: Result<(), rusqlite::Error>)
    requires
        in_txn_of(*old(conn)),
    ensures
        (match r {
            Ok(_) => monthly_of(*final(conn)) == monthly_of(*old(conn)).insert(
                (player@, month@),
                games as int,
            ) && totals_of(*final(conn)) == totals_of(*old(conn)) && processed_of(*final(conn))
                == processed_of(*old(conn)) && monthly_of(*final(conn)).dom().finite()
                && stmt_keeps_txn(*old(conn), *final(conn)),
            Err(_) => stmt_failure_state(*old(conn), *final(conn)),
        }),
{
    conn.execute(
        "INSERT OR REPLACE INTO monthly_counts (player, month, games) VALUES (?1, ?2, ?3)",
        (player.as_slice(), month.as_slice(), games as i64),
    )?;
    Ok(())
}

/// Relies on `rusqlite::Connection::execute` with `INSERT ... ON CONFLICT
/// DO UPDATE SET total_games = total_games + excluded.total_games`: adds
/// `count` to the player's total, starting from zero for a new player,
/// and touches nothing else.
#[verifier::external_body]
fn db_add_total(conn: &mut rusqlite::Connection, player: &Vec<u8>, count: u32) -> (r: Result<
    (),
    rusqlite::Error,
>)
    requires
        in_txn_of(*old(conn)),
    ensures
        (match r {
            Ok(_) => totals_of(*final(conn)) == totals_of(*old(conn)).insert(
                player@,
                (if totals_of(*old(conn)).contains_key(player@) {
                    totals_of(*old(conn))[player@]
                } else {
                    0
                }) + count as int,
            ) && monthly_of(*final(conn)) == monthly_of(*old(conn)) && processed_of(*final(conn))
                == processed_of(*old(conn)) && totals_of(*final(conn)).dom().finite()
                && stmt_keeps_txn(*old(conn), *final(conn)),
            Err(_) => stmt_failure_state(*old(conn), *final(conn)),
        }),
{
    conn.execute(
        "INSERT INTO players (name, total_games) VALUES (?1, ?2)
         ON CONFLICT(name) DO UPDATE SET total_games = total_games + excluded.total_games",
        (player.as_slice(), count as i64),
    )?;
    Ok(())
}

/// Relies on `rusqlite::Connection::execute_batch` with `BEGIN`: opens a
/// transaction and saves the relations' content for `ROLLBACK`; the
/// content itself is unchanged.
#[verifier::external_body]
fn db_begin(conn: &mut rusqlite::Connection) -> (r: Result<(), rusqlite::Error>)
    requires
        !in_txn_of(*old(conn)),
    ensures
        totals_of(*final(conn)) == totals_of(*old(conn)),
        monthly_of(*final(conn)) == monthly_of(*old(conn)),
        processed_of(*final(conn)) == processed_of(*old(conn)),
        (match r {
            Ok(_) => in_txn_of(*final(conn)) && saved_totals_of(*final(conn)) == totals_of(
                *final(conn),
            ) && saved_monthly_of(*final(conn)) == monthly_of(*final(conn)) && saved_processed_of(
                *final(conn),
            ) == processed_of(*final(conn)),
            Err(_) => !in_txn_of(*final(conn)),
        }),
{
    conn.execute_batch("BEGIN")
}

/// Relies on `rusqlite::Connection::execute_batch` with `COMMIT`: makes
/// the open transaction durable with the relations' content unchanged;
/// on failure the transaction either stays open with the content as it
/// was, or the error already rolled it back to the saved state.
#[verifier::external_body]
fn db_commit(conn: &mut rusqlite::Connection) -> (r: Result<(), rusqlite::Error>)
    requires
        in_txn_of(*old(conn)),
    ensures
        (match r {
            Ok(_) => totals_of(*final(conn)) == totals_of(*old(conn)) && monthly_of(*final(conn))
                == monthly_of(*old(conn)) && processed_of(*final(conn)) == processed_of(
                *old(conn),
            ) && !in_txn_of(*final(conn)),
            Err(_) => stmt_failure_state(*old(conn), *final(conn)),
        }),
{
    conn.execute_batch("COMMIT")
}

/// Relies on `rusqlite::Connection::execute_batch` with `ROLLBACK`: with
/// a transaction open it restores the relations saved at `BEGIN`; it
/// fails only when no transaction is active any more, which on these
/// error paths means the preceding error already rolled the transaction
/// back, so the content stands as it is.  Either way the connection ends
/// outside any transaction.
#[verifier::external_body]
fn db_rollback(conn: &mut rusqlite::Connection) -> (r: Result<(), rusqlite::Error>)
    ensures
        !in_txn_of(*final(conn)),
        in_txn_of(*old(conn)) ==> totals_of(*final(conn)) == saved_totals_of(*old(conn))
            && monthly_of(*final(conn)) == saved_monthly_of(*old(conn)) && processed_of(
            *final(conn),
        ) == saved_processed_of(*old(conn)),
        !in_txn_of(*old(conn)) ==> totals_of(*final(conn)) == totals_of(*old(conn)) && monthly_of(
            *final(conn),
        ) == monthly_of(*old(conn)) && processed_of(*final(conn)) == processed_of(*old(conn)),
{
    conn.execute_batch("ROLLBACK")
}

/// `names` lists, each exactly once, the keys of `m` whose value is
/// below `t`.
pub open spec fn lists_names_below(m: Map<Seq<u8>, int>, t: int, names: Seq<Seq<u8>>) -> bool {
    &&& (forall|k: int|
        0 <= k < names.len() ==> m.contains_key(#[trigger] names[k]) && m[names[k]] < t)
    &&& (forall|n: Seq<u8>|
        m.contains_key(n) && m[n] < t ==> exists|k: int| 0 <= k < names.len() && names[k] == n)
    &&& (forall|a: int, b: int| 0 <= a < b < names.len() ==> names[a] != names[b])
}

/// Relies on `rusqlite::Statement::query_map` over `SELECT name FROM
/// players WHERE total_games < ?1`: names are the primary key, so the
/// result lists, without repetition, exactly the players whose total is
/// below the threshold.
#[verifier::external_body]
fn db_players_below(conn: &rusqlite::Connection, min_total: u32) -> (r: Result<
    Vec<Vec<u8>>,
    rusqlite::Error,
>)
    ensures
        (match r {
            Ok(names) => lists_names_below(totals_of(*conn), min_total as int, names.deep_view()),
            Err(_) => true,
        }),
{
    let mut stmt = conn.prepare("SELECT name FROM players WHERE total_games < ?1")?;
    let rows = stmt.query_map((min_total as i64,), |row| row.get::<_, Vec<u8>>(0))?;
    rows.collect::<Result<Vec<Vec<u8>>, rusqlite::Error>>()
}

/// Relies on `rusqlite::Connection::execute` with `DELETE FROM
/// monthly_counts WHERE player IN (SELECT name FROM players WHERE
/// total_games < ?1)`: keeps exactly the monthly rows whose player is not
/// a tracked player below the threshold.
#[verifier::external_body]
fn db_delete_monthly_below(conn: &mut rusqlite::Connection, min_total: u32) -> (r: Result<
    usize,
    rusqlite::Error,
>)
    requires
        in_txn_of(*old(conn)),
    ensures
        (match r {
            Ok(_) => monthly_of(*final(conn)) == Map::<(Seq<u8>, Seq<u8>), int>::new(
                |k: (Seq<u8>, Seq<u8>)|
                    monthly_of(*old(conn)).contains_key(k) && !(totals_of(
                        *old(conn),
                    ).contains_key(k.0) && totals_of(*old(conn))[k.0] < min_total as int),
                |k: (Seq<u8>, Seq<u8>)| monthly_of(*old(conn))[k],
            ) && totals_of(*final(conn)) == totals_of(*old(conn)) && processed_of(*final(conn))
                == processed_of(*old(conn)) && stmt_keeps_txn(*old(conn), *final(conn)),
            Err(_) => stmt_failure_state(*old(conn), *final(conn)),
        }),
{
    conn.execute(
        "DELETE FROM monthly_counts WHERE player IN (SELECT name FROM players WHERE total_games < ?1)",
        (min_total as i64,),
    )
}

/// Relies on `rusqlite::Connection::execute` with `DELETE FROM players
/// WHERE total_games < ?1`: keeps exactly the players at or above the
/// threshold and reports how many rows were deleted.
#[verifier::external_body]
fn db_delete_players_below(conn: &mut rusqlite::Connection, min_total: u32) -> (r: Result<
    usize,
    rusqlite::Error,
>)
    requires
        in_txn_of(*old(conn)),
    ensures
        (match r {
            Ok(n) => totals_of(*final(conn)) == Map::<Seq<u8>, int>::new(
                |k: Seq<u8>|
                    totals_of(*old(conn)).contains_key(k) && totals_of(*old(conn))[k]
                        >= min_total as int,
                |k: Seq<u8>| totals_of(*old(conn))[k],
            ) && monthly_of(*final(conn)) == monthly_of(*old(conn)) && processed_of(*final(conn))
                == processed_of(*old(conn)) && (totals_of(*old(conn)).dom().finite() ==> n as int
                == totals_of(*old(conn)).dom().filter(
                |k: Seq<u8>| totals_of(*old(conn))[k] < min_total as int,
            ).len()) && stmt_keeps_txn(*old(conn), *final(conn)),
            Err(_) => stmt_failure_state(*old(conn), *final(conn)),
        }),
{
    conn.execute("DELETE FROM players WHERE total_games < ?1", (min_total as i64,))
}

/// Relies on `rusqlite::Connection::query_row` with `SELECT COUNT(*) FROM
/// players WHERE total_games >= ?1`: counts the players at or above the
/// threshold.
#[verifier::external_body]
fn db_count_at_or_above(conn: &rusqlite::Connection, min_total: u32) -> (r: Result<
    i64,
    rusqlite::Error,
>)
    ensures
        (match r {
            Ok(n) => totals_of(*conn).dom().finite() ==> n as int == totals_of(
                *conn,
            ).dom().filter(|k: Seq<u8>| totals_of(*conn)[k] >= min_total as int).len(),
            Err(_) => true,
        }),
{
    conn.query_row(
        "SELECT COUNT(*) FROM players WHERE total_games >= ?1",
        (min_total as i64,),
        |row| row.get(0),
    )
}

/// Relies on `rusqlite::Connection::query_row` with `SELECT COUNT(*) FROM
/// players`: counts all tracked players.
#[verifier::external_body]
fn db_count_players(conn: &rusqlite::Connection) -> (r: Result<i64, rusqlite::Error>)
    ensures
        (match r {
            Ok(n) => totals_of(*conn).dom().finite() ==> n as int == totals_of(*conn).dom().len(),
            Err(_) => true,
        }),
{
    conn.query_row("SELECT COUNT(*) FROM players", (), |row| row.get(0))
}

// ───────────────────────── verified index type ───────────────────────────────

/// Effect on the totals of committing one archive's qualifying rows:
/// each row's count is added to that player's running total.
pub open spec fn apply_totals(m: Map<Seq<u8>, int>, rows: Seq<(Seq<u8>, u32)>) -> Map<Seq<u8>, int>
    decreases rows.len(),
{
    if rows.len() == 0 {
        m
    } else {
        let m1 = apply_totals(m, rows.drop_last());
        m1.insert(
            rows.last().0,
            (if m1.contains_key(rows.last().0) {
                m1[rows.last().0]
            } else {
                0
            }) + rows.last().1 as int,
        )
    }
}

/// Effect on the monthly relation of committing one archive's qualifying
/// rows for `month`: each (player, month) row is set to that count,
/// replacing any earlier value for the same month.
pub open spec fn apply_monthly(
    m: Map<(Seq<u8>, Seq<u8>), int>,
    month: Seq<u8>,
    rows: Seq<(Seq<u8>, u32)>,
) -> Map<(Seq<u8>, Seq<u8>), int>
    decreases rows.len(),
{
    if rows.len() == 0 {
        m
    } else {
        apply_monthly(m, month, rows.drop_last()).insert(
            (rows.last().0, month),
            rows.last().1 as int,
        )
    }
}

/// The durable index.
pub struct Database {
    conn: rusqlite::Connection,
}

impl Database {
    pub closed spec fn totals(&self) -> Map<Seq<u8>, int> {
        totals_of(self.conn)
    }

    pub closed spec fn monthly(&self) -> Map<(Seq<u8>, Seq<u8>), int> {
        monthly_of(self.conn)
    }

    pub closed spec fn processed(&self) -> Set<Seq<u8>> {
        processed_of(self.conn)
    }

    pub closed spec fn wf(&self) -> bool {
        &&& self.totals().dom().finite()
        &&& self.monthly().dom().finite()
        &&& self.processed().finite()
        &&& !in_txn_of(self.conn)
    }

    /// Open (creating as needed) the index at `path` and make sure its
    /// relations exist.
    pub fn open(path: &Vec<u8>) -> (r: Result<Database, PipelineError>)
        ensures
            (match r {
                Ok(db) => db.wf(),
                Err(e) => e is Storage,
            }),
    {
        let conn = match db_open(path) {
            Ok(c) => c,
            Err(e) => {
                return Err(PipelineError::Storage(e));
            },
        };
        let mut db = Database { conn };
        match db_init(&mut db.conn) {
            Ok(_) => Ok(db),
            Err(e) => Err(PipelineError::Storage(e)),
        }
    }

    /// Whether this archive identifier was already fully processed.
    pub fn is_dataset_processed(&self, url: &Vec<u8>) -> (r: Result<bool, PipelineError>)
        ensures
            (match r {
                Ok(b) => b == self.processed().contains(url@),
                Err(e) => e is Storage,
            }),
    {
        match db_processed_count(&self.conn, url) {
            Ok(n) => Ok(n > 0),
            Err(e) => Err(PipelineError::Storage(e)),
        }
    }

    /// Record this archive identifier as fully processed; on failure the
    /// index is exactly as it was.
    pub fn mark_dataset_processed(&mut self, url: &Vec<u8>) -> (r: Result<(), PipelineError>)
        requires
            old(self).wf(),
        ensures
            (match r {
                Ok(_) => final(self).wf() && final(self).processed() == old(self).processed().insert(url@) && final(self).totals() == old(self).totals() && final(self).monthly() == old(self).monthly(),
                Err(e) => e is Storage && final(self).wf() && final(self).totals() == old(self).totals() && final(self).monthly() == old(self).monthly() && final(self).processed() == old(self).processed(),
            }),
    {
        match db_mark_processed(&mut self.conn, url) {
            Ok(_) => Ok(()),
            Err(e) => Err(PipelineError::Storage(e)),
        }
    }

    /// Commit one archive's qualifying counts for `month` in one
    /// transaction: every (player, month) row is set by replacement, and
    /// every player's running total grows by that archive's count.  On
    /// failure the transaction is rolled back and the index is exactly
    /// as it was, never a partial mapping.
    pub fn update_player_counts(&mut self, month: &Vec<u8>, counts: &Ledger) -> (r: Result<
        (),
        PipelineError,
    >)
        requires
            old(self).wf(),
            counts.wf(),
        ensures
            (match r {
                Ok(_) => final(self).wf() && final(self).totals() == apply_totals(
                    old(self).totals(),
                    counts.rows(),
                ) && final(self).monthly() == apply_monthly(
                    old(self).monthly(),
                    month@,
                    counts.rows(),
                ) && final(self).processed() == old(self).processed(),
                Err(e) => e is Storage && final(self).wf() && final(self).totals() == old(self).totals() && final(self).monthly() == old(self).monthly() && final(self).processed() == old(self).processed(),
            }),
    {
        let ghost t0 = self.totals();
        let ghost m0 = self.monthly();
        let ghost p0 = self.processed();
        if let Err(e) = db_begin(&mut self.conn) {
            return Err(PipelineError::Storage(e));
        }
        let n = counts.len();
        let mut i: usize = 0;
        proof {
            assert(counts.rows().take(0) =~= Seq::<(Seq<u8>, u32)>::empty());
        }
        while i < n
            invariant
                0 <= i <= n == counts.rows().len(),
                counts.wf(),
                self.totals().dom().finite(),
                self.monthly().dom().finite(),
                self.processed().finite(),
                in_txn_of(self.conn),
                saved_totals_of(self.conn) == t0,
                saved_monthly_of(self.conn) == m0,
                saved_processed_of(self.conn) == p0,
                self.totals() == apply_totals(t0, counts.rows().take(i as int)),
                self.monthly() == apply_monthly(m0, month@, counts.rows().take(i as int)),
                self.processed() == p0,
                t0 == old(self).totals(),
                m0 == old(self).monthly(),
                p0 == old(self).processed(),
                old(self).wf(),
            decreases n - i,
        {
            let name = counts.name_at(i);
            let c = counts.count_at(i);
            if let Err(e) = db_replace_monthly(&mut self.conn, name, month, c) {
                let _ = db_rollback(&mut self.conn);
                return Err(PipelineError::Storage(e));
            }
            if let Err(e) = db_add_total(&mut self.conn, name, c) {
                let _ = db_rollback(&mut self.conn);
                return Err(PipelineError::Storage(e));
            }
            proof {
                assert(counts.rows().take(i + 1).drop_last() =~= counts.rows().take(i as int));
                assert(counts.rows().take(i + 1).last() == counts.rows()[i as int]);
            }
            i += 1;
        }
        proof {
            assert(counts.rows().take(n as int) =~= counts.rows());
        }
        match db_commit(&mut self.conn) {
            Ok(_) => Ok(()),
            Err(e) => {
                let _ = db_rollback(&mut self.conn);
                Err(PipelineError::Storage(e))
            },
        }
    }

    /// The names of all players whose cumulative total is below the
    /// threshold, each exactly once.
    pub fn get_players_below_total(&self, min_total: u32) -> (r: Result<
        Vec<Vec<u8>>,
        PipelineError,
    >)
        ensures
            (match r {
                Ok(names) => lists_names_below(
                    self.totals(),
                    min_total as int,
                    names.deep_view(),
                ),
                Err(e) => e is Storage,
            }),
    {
        match db_players_below(&self.conn, min_total) {
            Ok(v) => Ok(v),
            Err(e) => Err(PipelineError::Storage(e)),
        }
    }

    /// Remove every player below the threshold, monthly rows first, in
    /// one transaction; reports how many players were removed.  On
    /// failure the transaction is rolled back and the index is exactly
    /// as it was.
    pub fn remove_players_below_total(&mut self, min_total: u32) -> (r: Result<
        usize,
        PipelineError,
    >)
        requires
            old(self).wf(),
        ensures
            (match r {
                Ok(n) => final(self).wf() && final(self).totals() == Map::<Seq<u8>, int>::new(
                    |k: Seq<u8>|
                        old(self).totals().contains_key(k) && old(self).totals()[k]
                            >= min_total as int,
                    |k: Seq<u8>| old(self).totals()[k],
                ) && final(self).monthly() == Map::<(Seq<u8>, Seq<u8>), int>::new(
                    |k: (Seq<u8>, Seq<u8>)|
                        old(self).monthly().contains_key(k) && !(old(self).totals().contains_key(k.0) && old(self).totals()[k.0]
                            < min_total as int),
                    |k: (Seq<u8>, Seq<u8>)| old(self).monthly()[k],
                ) && final(self).processed() == old(self).processed() && n as int == old(self).totals().dom().filter(
                    |k: Seq<u8>| old(self).totals()[k] < min_total as int,
                ).len(),
                Err(e) => e is Storage && final(self).wf() && final(self).totals() == old(self).totals() && final(self).monthly() == old(self).monthly() && final(self).processed() == old(self).processed(),
            }),
    {
        if let Err(e) = db_begin(&mut self.conn) {
            return Err(PipelineError::Storage(e));
        }
        if let Err(e) = db_delete_monthly_below(&mut self.conn, min_total) {
            let _ = db_rollback(&mut self.conn);
            return Err(PipelineError::Storage(e));
        }
        let removed = match db_delete_players_below(&mut self.conn, min_total) {
            Ok(n) => n,
            Err(e) => {
                let _ = db_rollback(&mut self.conn);
                return Err(PipelineError::Storage(e));
            },
        };
        proof {
            crate::database::lemma_restrict_finite(old(self).totals(), min_total as int);
            lemma_restrict_monthly_finite(old(self).monthly(), old(self).totals(), min_total as int);
        }
        match db_commit(&mut self.conn) {
            Ok(_) => Ok(removed),
            Err(e) => {
                let _ = db_rollback(&mut self.conn);
                Err(PipelineError::Storage(e))
            },
        }
    }

    /// How many players sit at or above the threshold.
    pub fn get_total_qualifying_players(&self, min_total: u32) -> (r: Result<i64, PipelineError>)
        requires
            self.wf(),
        ensures
            (match r {
                Ok(n) => n as int == self.totals().dom().filter(
                    |k: Seq<u8>| self.totals()[k] >= min_total as int,
                ).len(),
                Err(e) => e is Storage,
            }),
    {
        match db_count_at_or_above(&self.conn, min_total) {
            Ok(n) => Ok(n),
            Err(e) => Err(PipelineError::Storage(e)),
        }
    }

    /// How many players are tracked at all.
    pub fn get_total_players(&self) -> (r: Result<i64, PipelineError>)
        requires
            self.wf(),
        ensures
            (match r {
                Ok(n) => n as int == self.totals().dom().len(),
                Err(e) => e is Storage,
            }),
    {
        match db_count_players(&self.conn) {
            Ok(n) => Ok(n),
            Err(e) => Err(PipelineError::Storage(e)),
        }
    }
}

/// Restricting the totals to one side of a threshold keeps the domain
/// finite.
proof fn lemma_restrict_finite(m: Map<Seq<u8>, int>, t: int)
    requires
        m.dom().finite(),
    ensures
        Map::<Seq<u8>, int>::new(
            |k: Seq<u8>| m.contains_key(k) && m[k] >= t,
            |k: Seq<u8>| m[k],
        ).dom().finite(),
{
    let m2 = Map::<Seq<u8>, int>::new(|k: Seq<u8>| m.contains_key(k) && m[k] >= t, |k: Seq<u8>| m[k]);
    assert(m2.dom() =~= m.dom().filter(|k: Seq<u8>| m[k] >= t));
}

/// Dropping the monthly rows of pruned players keeps the domain finite.
proof fn lemma_restrict_monthly_finite(
    m: Map<(Seq<u8>, Seq<u8>), int>,
    totals: Map<Seq<u8>, int>,
    t: int,
)
    requires
        m.dom().finite(),
    ensures
        Map::<(Seq<u8>, Seq<u8>), int>::new(
            |k: (Seq<u8>, Seq<u8>)|
                m.contains_key(k) && !(totals.contains_key(k.0) && totals[k.0] < t),
            |k: (Seq<u8>, Seq<u8>)| m[k],
        ).dom().finite(),
{
    let m2 = Map::<(Seq<u8>, Seq<u8>), int>::new(
        |k: (Seq<u8>, Seq<u8>)| m.contains_key(k) && !(totals.contains_key(k.0) && totals[k.0] < t),
        |k: (Seq<u8>, Seq<u8>)| m[k],
    );
    assert(m2.dom() =~= m.dom().filter(
        |k: (Seq<u8>, Seq<u8>)| !(totals.contains_key(k.0) && totals[k.0] < t),
    ));
}

/// Totals merged with one archive's qualifying counts: each side's value
/// counts as zero where absent.
pub open spec fn merge_add(t: Map<Seq<u8>, int>, q: Map<Seq<u8>, int>) -> Map<Seq<u8>, int> {
    Map::new(
        |k: Seq<u8>| t.contains_key(k) || q.contains_key(k),
        |k: Seq<u8>|
            (if t.contains_key(k) {
                t[k]
            } else {
                0
            }) + (if q.contains_key(k) {
                q[k]
            } else {
                0
            }),
    )
}

/// The monthly relation with `month`'s rows replaced by one archive's
/// qualifying counts; other months are untouched.
pub open spec fn month_replace(
    m: Map<(Seq<u8>, Seq<u8>), int>,
    month: Seq<u8>,
    q: Map<Seq<u8>, int>,
) -> Map<(Seq<u8>, Seq<u8>), int> {
    Map::new(
        |k: (Seq<u8>, Seq<u8>)| m.contains_key(k) || (k.1 == month && q.contains_key(k.0)),
        |k: (Seq<u8>, Seq<u8>)|
            if k.1 == month && q.contains_key(k.0) {
                q[k.0]
            } else {
                m[k]
            },
    )
}

/// The totals after pruning: exactly the players at or above the
/// threshold, with unchanged values.
pub open spec fn totals_pruned(t: Map<Seq<u8>, int>, min: int) -> Map<Seq<u8>, int> {
    Map::new(|k: Seq<u8>| t.contains_key(k) && t[k] >= min, |k: Seq<u8>| t[k])
}

/// The monthly relation after pruning: rows of pruned players removed.
pub open spec fn monthly_pruned(
    m: Map<(Seq<u8>, Seq<u8>), int>,
    t: Map<Seq<u8>, int>,
    min: int,
) -> Map<(Seq<u8>, Seq<u8>), int> {
    Map::new(
        |k: (Seq<u8>, Seq<u8>)| m.contains_key(k) && !(t.contains_key(k.0) && t[k.0] < min),
        |k: (Seq<u8>, Seq<u8>)| m[k],
    )
}

/// Committing rows with unique keys adds, per player, exactly that
/// player's count to the totals.
pub proof fn lemma_apply_totals_is_merge(t: Map<Seq<u8>, int>, rows: Seq<(Seq<u8>, u32)>)
    requires
        crate::ledger::unique_keys(rows),
    ensures
        apply_totals(t, rows) == merge_add(t, crate::ledger::assoc_map(rows)),
    decreases rows.len(),
{
    if rows.len() == 0 {
        assert(merge_add(t, crate::ledger::assoc_map(rows)) =~= t);
    } else {
        let rp = rows.drop_last();
        let last = rows.last();
        assert(forall|a: int, b: int| 0 <= a < b < rp.len() ==> rp[a].0 != rp[b].0);
        lemma_apply_totals_is_merge(t, rp);
        let qp = crate::ledger::assoc_map(rp);
        crate::ledger::lemma_assoc_contains(rp, last.0);
        assert(forall|k: int| 0 <= k < rp.len() ==> rp[k] == rows[k] && rows[k].0 != last.0);
        assert(!qp.contains_key(last.0));
        let m1 = merge_add(t, qp);
        assert(apply_totals(t, rows) == m1.insert(
            last.0,
            (if m1.contains_key(last.0) {
                m1[last.0]
            } else {
                0
            }) + last.1 as int,
        ));
        assert(m1.insert(
            last.0,
            (if m1.contains_key(last.0) {
                m1[last.0]
            } else {
                0
            }) + last.1 as int,
        ) =~= merge_add(t, qp.insert(last.0, last.1 as int)));
    }
}

/// Committing rows with unique keys sets, per player, exactly that
/// player's monthly row.
pub proof fn lemma_apply_monthly_is_replace(
    m: Map<(Seq<u8>, Seq<u8>), int>,
    month: Seq<u8>,
    rows: Seq<(Seq<u8>, u32)>,
)
    requires
        crate::ledger::unique_keys(rows),
    ensures
        apply_monthly(m, month, rows) == month_replace(m, month, crate::ledger::assoc_map(rows)),
    decreases rows.len(),
{
    if rows.len() == 0 {
        assert(month_replace(m, month, crate::ledger::assoc_map(rows)) =~= m);
    } else {
        let rp = rows.drop_last();
        let last = rows.last();
        assert(forall|a: int, b: int| 0 <= a < b < rp.len() ==> rp[a].0 != rp[b].0);
        lemma_apply_monthly_is_replace(m, month, rp);
        let qp = crate::ledger::assoc_map(rp);
        crate::ledger::lemma_assoc_contains(rp, last.0);
        assert(forall|k: int| 0 <= k < rp.len() ==> rp[k] == rows[k] && rows[k].0 != last.0);
        assert(!qp.contains_key(last.0));
        assert(month_replace(m, month, qp).insert((last.0, month), last.1 as int)
            =~= month_replace(m, month, qp.insert(last.0, last.1 as int)));
    }
}

/// Committing the same player's qualifying counts for two different
/// months adds both counts to the player's running total, while the two
/// monthly rows stay distinct and hold each month's own count.
pub proof fn lemma_cumulative_accumulation(
    t0: Map<Seq<u8>, int>,
    m0: Map<(Seq<u8>, Seq<u8>), int>,
    p: Seq<u8>,
    month1: Seq<u8>,
    month2: Seq<u8>,
    q1: Map<Seq<u8>, int>,
    q2: Map<Seq<u8>, int>,
)
    requires
        month1 != month2,
        q1.contains_key(p),
        q2.contains_key(p),
    ensures
        merge_add(merge_add(t0, q1), q2)[p] == (if t0.contains_key(p) {
            t0[p]
        } else {
            0
        }) + q1[p] + q2[p],
        month_replace(month_replace(m0, month1, q1), month2, q2)[(p, month1)] == q1[p],
        month_replace(month_replace(m0, month1, q1), month2, q2)[(p, month2)] == q2[p],
        month_replace(month_replace(m0, month1, q1), month2, q2).contains_key((p, month1)),
        month_replace(month_replace(m0, month1, q1), month2, q2).contains_key((p, month2)),
{
}

/// After pruning at `min`: a player below the threshold has no row left,
/// in the totals or in any month; a player at or above it keeps every
/// row unchanged.
pub proof fn lemma_pruning(
    t: Map<Seq<u8>, int>,
    m: Map<(Seq<u8>, Seq<u8>), int>,
    min: int,
    p: Seq<u8>,
)
    ensures
        (t.contains_key(p) && t[p] < min) ==> !totals_pruned(t, min).contains_key(p) && (forall|
            mo: Seq<u8>,
        | !monthly_pruned(m, t, min).contains_key((p, mo))),
        (t.contains_key(p) && t[p] >= min) ==> totals_pruned(t, min).contains_key(p)
            && totals_pruned(t, min)[p] == t[p] && (forall|mo: Seq<u8>|
            m.contains_key((p, mo)) ==> monthly_pruned(m, t, min).contains_key((p, mo))
                && monthly_pruned(m, t, min)[(p, mo)] == m[(p, mo)]),
{
}

} // verus!
