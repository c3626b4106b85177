//! The record store: durable, keyed storage of user status records in an
//! embedded relational database, with transactional batch writes.
//!
//! The table is modelled as a map from key to record view. Every call into
//! the database goes through a small trusted wrapper whose contract states,
//! over that map, what the statement does; everything around the calls —
//! validation, the batch loop, rollback on failure — is verified.
use vstd::prelude::*;

use crate::errors::StoreError;
use crate::models::{RecordView, UserAnimeData};

verus! {

#[verifier::external_type_specification]
#[verifier::external_body]
pub struct ExConnection(rusqlite::Connection);

#[verifier::external_type_specification]
#[verifier::external_body]
pub struct ExSqlError(rusqlite::Error);

/// The `user_status` rows a statement on this connection sees right now,
/// keyed by `subject_id`; inside a transaction this includes uncommitted
/// writes. This and the two names below read the table's state as a
/// function of the connection value: the proofs therefore assume the
/// connection is the file's only writer for its lifetime — the single-writer
/// discipline the store is built for. A second connection to the same file
/// could change the file under an unchanged value, and nothing here would
/// see it.
pub uninterp spec fn db_rows(c: rusqlite::Connection) -> Map<int, RecordView>;

/// The rows that are durably committed. Equal to `db_rows` outside a
/// transaction. Assumes exclusive ownership of the file, as `db_rows` does.
pub uninterp spec fn db_saved(c: rusqlite::Connection) -> Map<int, RecordView>;

/// Whether an explicit transaction is open on this connection. Assumes
/// exclusive ownership of the file, as `db_rows` does.
pub uninterp spec fn db_in_tx(c: rusqlite::Connection) -> bool;

/// Whether the `user_status` table has exactly the store's shape:
/// `subject_id` as its single integer primary key, no other unique index,
/// and no trigger. Only under it do `INSERT OR REPLACE` and `DELETE` touch
/// exactly the row of the given key. Established by `check_schema` when the
/// store is opened; the store's own statements never alter the schema.
pub uninterp spec fn db_clean_schema(c: rusqlite::Connection) -> bool;

/// The map that results from upserting each record of `rs` in order.
pub open spec fn apply_batch(m: Map<int, RecordView>, rs: Seq<RecordView>) -> Map<int, RecordView>
    decreases rs.len(),
{
    if rs.len() == 0 {
        m
    } else {
        apply_batch(m, rs.drop_last()).insert(rs.last().subject_id, rs.last())
    }
}

/// The views of a sequence of records.
pub open spec fn views_of(s: Seq<UserAnimeData>) -> Seq<RecordView> {
    s.map_values(|d: UserAnimeData| d@)
}

/// Keyed record store over one embedded database file.
pub struct Database {
    conn: rusqlite::Connection,
}

impl View for Database {
    type V = Map<int, RecordView>;

    /// The current contents of the store: one record per key.
    closed spec fn view(&self) -> Map<int, RecordView> {
        db_rows(self.conn)
    }
}

impl Database {
    /// Well-formedness: the table has the store's shape, no transaction is
    /// pending, everything visible is committed, the table is finite, and
    /// each row sits under its own key.
    pub closed spec fn wf(&self) -> bool {
        &&& db_clean_schema(self.conn)
        &&& !db_in_tx(self.conn)
        &&& db_saved(self.conn) == db_rows(self.conn)
        &&& db_rows(self.conn).dom().finite()
        &&& forall|k: int|
            db_rows(self.conn).contains_key(k) ==> (#[trigger] db_rows(self.conn)[k]).subject_id
                == k
    }

    /// Relies on `rusqlite::Connection::open` and `Connection::execute_batch`:
    /// opens or creates the database file and creates the table and its two
    /// indexes if they are missing. `CREATE TABLE IF NOT EXISTS` keeps
    /// whatever table already bears the name, so nothing is claimed here
    /// about the table's shape — `check_schema` establishes that. A fresh
    /// connection is in autocommit mode, so it has no transaction open and
    /// sees exactly the committed rows, and any SQLite table is finite.
    #[verifier::external_body]
    fn open_with_schema(path: &str) -> (r: Result<rusqlite::Connection, rusqlite::Error>)
        ensures
            r matches Ok(c) ==> {
                &&& !db_in_tx(c)
                &&& db_saved(c) == db_rows(c)
                &&& db_rows(c).dom().finite()
            },
    {
        let conn = rusqlite::Connection::open(path)?;
        conn.execute_batch(
            "CREATE TABLE IF NOT EXISTS user_status (subject_id INTEGER PRIMARY KEY, status TEXT NOT NULL, rating INTEGER, tags TEXT, marked_at TEXT NOT NULL); CREATE INDEX IF NOT EXISTS idx_status ON user_status(status); CREATE INDEX IF NOT EXISTS idx_marked_at ON user_status(marked_at);",
        )?;
        Ok(conn)
    }

    /// Relies on `rusqlite::Connection::query_row` over
    /// `pragma_table_info('user_status')`, `pragma_index_list('user_status')`
    /// and `sqlite_master`: returns whether `subject_id` is the table's
    /// single primary-key column, declared `INTEGER`, with no other unique
    /// index and no trigger on the table. On such a table SQLite enforces
    /// one row per `subject_id`, so the rows keyed by it form a faithful map
    /// in which each row sits under its own key; and because no second
    /// unique constraint and no trigger exists, a write statement can touch
    /// no row but the one of its key. A pre-existing file shaped otherwise
    /// answers `false` here and is rejected.
    #[verifier::external_body]
    fn check_schema(conn: &rusqlite::Connection) -> (r: Result<bool, rusqlite::Error>)
        ensures
            r matches Ok(b) ==> b ==> {
                &&& db_clean_schema(*conn)
                &&& forall|k: int|
                    db_rows(*conn).contains_key(k) ==> (#[trigger] db_rows(*conn)[k]).subject_id
                        == k
            },
    {
        conn.query_row(
            "SELECT (SELECT COUNT(*) FROM pragma_table_info('user_status') WHERE pk > 0) = 1 AND (SELECT COUNT(*) FROM pragma_table_info('user_status') WHERE pk = 1 AND name = 'subject_id' AND UPPER(type) = 'INTEGER') = 1 AND (SELECT COUNT(*) FROM pragma_index_list('user_status') WHERE \"unique\" > 0) = 0 AND (SELECT COUNT(*) FROM sqlite_master WHERE type = 'trigger' AND tbl_name = 'user_status') = 0",
            [],
            |row| row.get(0),
        )
    }

    /// Relies on `rusqlite::Connection::execute` with
    /// `INSERT OR REPLACE INTO user_status`: on success the statement's row
    /// set is the old one with this record stored under its key, and nothing
    /// else — which needs the shape `check_schema` verified, since a second
    /// unique index or a trigger would let `REPLACE` delete or a trigger
    /// mutate other rows. On failure nothing new is committed; SQLite rolls
    /// back either the statement alone, leaving an open transaction intact,
    /// or — on an I/O or memory error mid-transaction — the whole
    /// transaction, returning to autocommit on the committed rows.
    #[verifier::external_body]
    fn exec_upsert(&mut self, data: &UserAnimeData) -> (r: Result<(), rusqlite::Error>)
        requires
            db_clean_schema(old(self).conn),
        ensures
            db_clean_schema(final(self).conn),
            r is Ok ==> {
                &&& db_in_tx(final(self).conn) == db_in_tx(old(self).conn)
                &&& db_rows(final(self).conn) == db_rows(old(self).conn).insert(
                    data.subject_id as int,
                    data@,
                )
                &&& db_saved(final(self).conn) == if db_in_tx(old(self).conn) {
                    db_saved(old(self).conn)
                } else {
                    db_rows(final(self).conn)
                }
            },
            r is Err ==> {
                &&& db_saved(final(self).conn) == db_saved(old(self).conn)
                &&& (db_in_tx(final(self).conn) ==> db_in_tx(old(self).conn) && db_rows(
                    final(self).conn,
                ) == db_rows(old(self).conn))
                &&& (!db_in_tx(final(self).conn) ==> db_rows(final(self).conn) == db_saved(
                    old(self).conn,
                ))
            },
    {
        let r = self.conn.execute(
            "INSERT OR REPLACE INTO user_status (subject_id, status, rating, tags, marked_at) VALUES (?1, ?2, ?3, ?4, ?5)",
            (data.subject_id, data.status.as_str(), data.rating, data.tags.as_deref(), data.marked_at.as_str()),
        );
        r.map(|_| ())
    }

    /// Relies on `rusqlite::Connection::execute` with
    /// `DELETE FROM user_status WHERE subject_id = ?1`: on success the row
    /// under that key, if any, is gone and nothing else changed — which
    /// needs the trigger-free shape `check_schema` verified. On failure
    /// nothing new is committed; as with the upsert, SQLite rolls back
    /// either the statement alone or, on an I/O or memory error
    /// mid-transaction, the whole transaction.
    #[verifier::external_body]
    fn exec_delete(&mut self, subject_id: i64) -> (r: Result<(), rusqlite::Error>)
        requires
            db_clean_schema(old(self).conn),
        ensures
            db_clean_schema(final(self).conn),
            r is Ok ==> {
                &&& db_in_tx(final(self).conn) == db_in_tx(old(self).conn)
                &&& db_rows(final(self).conn) == db_rows(old(self).conn).remove(subject_id as int)
                &&& db_saved(final(self).conn) == if db_in_tx(old(self).conn) {
                    db_saved(old(self).conn)
                } else {
                    db_rows(final(self).conn)
                }
            },
            r is Err ==> {
                &&& db_saved(final(self).conn) == db_saved(old(self).conn)
                &&& (db_in_tx(final(self).conn) ==> db_in_tx(old(self).conn) && db_rows(
                    final(self).conn,
                ) == db_rows(old(self).conn))
                &&& (!db_in_tx(final(self).conn) ==> db_rows(final(self).conn) == db_saved(
                    old(self).conn,
                ))
            },
    {
        let r = self.conn.execute("DELETE FROM user_status WHERE subject_id = ?1", [subject_id]);
        r.map(|_| ())
    }

    /// Relies on `rusqlite::Connection::query_row` with a point `SELECT` on
    /// the primary key, and on `Error::QueryReturnedNoRows` marking an empty
    /// result: on success the option is the row under that key, or absent
    /// exactly when the table has no such key. At most one such row exists
    /// by the primary key that `check_schema` verified at open.
    #[verifier::external_body]
    fn query_get(&self, subject_id: i64) -> (r: Result<Option<UserAnimeData>, rusqlite::Error>)
        ensures
            r matches Ok(opt) ==> match opt {
                Some(d) => db_rows(self.conn).contains_key(subject_id as int) && d@ == db_rows(
                    self.conn,
                )[subject_id as int],
                None => !db_rows(self.conn).contains_key(subject_id as int),
            },
    {
        let r = self.conn.query_row(
            "SELECT subject_id, status, rating, tags, marked_at FROM user_status WHERE subject_id = ?1",
            [subject_id],
            |row| Ok(UserAnimeData { subject_id: row.get(0)?, status: row.get(1)?, rating: row.get(2)?, tags: row.get(3)?, marked_at: row.get(4)? }),
        );
        match r {
            Ok(d) => Ok(Some(d)),
            Err(rusqlite::Error::QueryReturnedNoRows) => Ok(None),
            Err(e) => Err(e),
        }
    }

    /// Relies on `rusqlite::Connection::prepare` and `Statement::query_map`
    /// with a full `SELECT` of the table: on success the vector holds every
    /// row exactly once, each under its primary key, in an unspecified
    /// order. One row per key rests on the primary key that `check_schema`
    /// verified at open.
    #[verifier::external_body]
    fn query_all(&self) -> (r: Result<Vec<UserAnimeData>, rusqlite::Error>)
        ensures
            r matches Ok(v) ==> {
                &&& forall|i: int|
                    0 <= i < v@.len() ==> db_rows(self.conn).contains_key(
                        (#[trigger] v@[i])@.subject_id,
                    ) && v@[i]@ == db_rows(self.conn)[v@[i]@.subject_id]
                &&& forall|i: int, j: int|
                    0 <= i < j < v@.len() ==> (#[trigger] v@[i])@.subject_id != (#[trigger] v@[j])@.subject_id
                &&& forall|k: int|
                    #[trigger] db_rows(self.conn).contains_key(k) ==> exists|i: int|
                        0 <= i < v@.len() && v@[i]@.subject_id == k
            },
    {
        let mut stmt = self.conn.prepare("SELECT subject_id, status, rating, tags, marked_at FROM user_status")?;
        let rows = stmt.query_map([], |row| {
            Ok(UserAnimeData { subject_id: row.get(0)?, status: row.get(1)?, rating: row.get(2)?, tags: row.get(3)?, marked_at: row.get(4)? })
        })?;
        rows.collect::<Result<Vec<UserAnimeData>, rusqlite::Error>>()
    }

    /// Relies on `rusqlite::Connection::execute_batch` with `BEGIN DEFERRED`:
    /// on success a transaction is open and nothing visible or committed has
    /// changed; on failure the connection is as it was.
    #[verifier::external_body]
    fn begin_tx(&mut self) -> (r: Result<(), rusqlite::Error>)
        ensures
            db_clean_schema(final(self).conn) == db_clean_schema(old(self).conn),
            db_rows(final(self).conn) == db_rows(old(self).conn),
            db_saved(final(self).conn) == db_saved(old(self).conn),
            r is Ok ==> db_in_tx(final(self).conn),
            r is Err ==> db_in_tx(final(self).conn) == db_in_tx(old(self).conn),
    {
        self.conn.execute_batch("BEGIN DEFERRED")
    }

    /// Relies on `rusqlite::Connection::execute_batch` with `COMMIT`: on
    /// success the visible rows become the committed rows and the transaction
    /// is closed. On failure nothing new is committed; the transaction either
    /// stays open with the visible rows intact, or was rolled back.
    #[verifier::external_body]
    fn commit_tx(&mut self) -> (r: Result<(), rusqlite::Error>)
        ensures
            db_clean_schema(final(self).conn) == db_clean_schema(old(self).conn),
            r is Ok ==> {
                &&& !db_in_tx(final(self).conn)
                &&& db_rows(final(self).conn) == db_rows(old(self).conn)
                &&& db_saved(final(self).conn) == db_rows(old(self).conn)
            },
            r is Err ==> {
                &&& db_saved(final(self).conn) == db_saved(old(self).conn)
                &&& (db_in_tx(final(self).conn) ==> db_rows(final(self).conn) == db_rows(
                    old(self).conn,
                ))
                &&& (!db_in_tx(final(self).conn) ==> db_rows(final(self).conn) == db_saved(
                    old(self).conn,
                ))
            },
    {
        self.conn.execute_batch("COMMIT")
    }

    /// Relies on `rusqlite::Connection::execute_batch` with `ROLLBACK`: if a
    /// transaction is open it is abandoned and the visible rows return to the
    /// committed ones; if none is open the statement fails and changes
    /// nothing. Either way no transaction remains open afterward.
    #[verifier::external_body]
    fn rollback_tx(&mut self)
        ensures
            db_clean_schema(final(self).conn) == db_clean_schema(old(self).conn),
            !db_in_tx(final(self).conn),
            db_saved(final(self).conn) == db_saved(old(self).conn),
            db_rows(final(self).conn) == if db_in_tx(old(self).conn) {
                db_saved(old(self).conn)
            } else {
                db_rows(old(self).conn)
            },
    {
        let _ = self.conn.execute_batch("ROLLBACK");
    }

    /// Relies on `core::fmt::Display` for `rusqlite::Error` to describe the
    /// failure; nothing is claimed of the text.
    #[verifier::external_body]
    fn sql_error_message(e: &rusqlite::Error) -> String {
        format!("database failure: {}", e)
    }

    fn sql_err(e: &rusqlite::Error) -> (r: StoreError)
        ensures
            !r.is_validation(),
    {
        StoreError::Sql(Self::sql_error_message(e))
    }

    fn validation_err() -> (r: StoreError)
        ensures
            r.is_validation(),
    {
        StoreError::Validation(String::from_str("unrecognized status value"))
    }

    /// Opens or creates the store at `db_path` and ensures the schema
    /// exists. Idempotent: existing data is kept. A pre-existing file whose
    /// `user_status` table does not have `subject_id` as its single integer
    /// primary key is refused: on such a table nothing keeps keys unique,
    /// so no store invariant could hold.
    pub fn new(db_path: &str) -> (r: Result<Database, StoreError>)
        ensures
            r matches Ok(db) ==> db.wf(),
    {
        let conn = match Self::open_with_schema(db_path) {
            Ok(c) => c,
            Err(e) => {
                return Err(Self::sql_err(&e));
            },
        };
        match Self::check_schema(&conn) {
            Ok(true) => Ok(Database { conn }),
            Ok(false) => Err(
                StoreError::Sql(
                    String::from_str(
                        "existing user_status table lacks subject_id as its integer primary key",
                    ),
                ),
            ),
            Err(e) => Err(Self::sql_err(&e)),
        }
    }

    /// Insert-or-replace by primary key: on success the record is the sole
    /// entry for its key and is durably committed. A record whose status is
    /// not one of the accepted values is rejected outright.
    pub fn save_user_status(&mut self, data: &UserAnimeData) -> (r: Result<(), StoreError>)
        requires
            old(self).wf(),
        ensures
            final(self).wf(),
            r is Ok ==> final(self)@ == old(self)@.insert(data.subject_id as int, data@),
            r is Err ==> final(self)@ == old(self)@,
            r is Ok ==> data.spec_valid(),
            !data.spec_valid() ==> r is Err && r->Err_0.is_validation(),
            data.spec_valid() && r is Err ==> !r->Err_0.is_validation(),
    {
        if !data.is_valid() {
            return Err(Self::validation_err());
        }
        match self.exec_upsert(data) {
            Ok(()) => Ok(()),
            Err(e) => Err(Self::sql_err(&e)),
        }
    }

    /// Point lookup: absent keys yield an explicit `None`, never a failure.
    pub fn get_user_status(&self, subject_id: i64) -> (r: Result<
        Option<UserAnimeData>,
        StoreError,
    >)
        ensures
            r matches Ok(opt) ==> match opt {
                Some(d) => self@.contains_key(subject_id as int) && d@ == self@[subject_id as int],
                None => !self@.contains_key(subject_id as int),
            },
            r is Err ==> !r->Err_0.is_validation(),
    {
        match self.query_get(subject_id) {
            Ok(opt) => Ok(opt),
            Err(e) => Err(Self::sql_err(&e)),
        }
    }

    /// Full scan: every current record exactly once, order unspecified.
    pub fn get_all_user_status(&self) -> (r: Result<Vec<UserAnimeData>, StoreError>)
        ensures
            r matches Ok(v) ==> {
                &&& forall|i: int|
                    0 <= i < v@.len() ==> self@.contains_key((#[trigger] v@[i])@.subject_id)
                        && v@[i]@ == self@[v@[i]@.subject_id]
                &&& forall|i: int, j: int|
                    0 <= i < j < v@.len() ==> (#[trigger] v@[i])@.subject_id != (#[trigger] v@[j])@.subject_id
                &&& forall|k: int|
                    #[trigger] self@.contains_key(k) ==> exists|i: int|
                        0 <= i < v@.len() && v@[i]@.subject_id == k
            },
            r is Err ==> !r->Err_0.is_validation(),
    {
        match self.query_all() {
            Ok(v) => Ok(v),
            Err(e) => Err(Self::sql_err(&e)),
        }
    }

    /// Transactional batch upsert: either every record of the batch is
    /// durably written, in order, or the store is left exactly as it was.
    /// A batch containing an unrecognized status is rejected whole.
    pub fn batch_save_user_status(&mut self, data_list: &Vec<UserAnimeData>) -> (r: Result<
        (),
        StoreError,
    >)
        requires
            old(self).wf(),
        ensures
            final(self).wf(),
            r is Ok ==> final(self)@ == apply_batch(old(self)@, views_of(data_list@)),
            r is Err ==> final(self)@ == old(self)@,
            r is Ok ==> forall|i: int|
                0 <= i < data_list@.len() ==> (#[trigger] data_list@[i]).spec_valid(),
            (forall|i: int| 0 <= i < data_list@.len() ==> (#[trigger] data_list@[i]).spec_valid())
                && r is Err ==> !r->Err_0.is_validation(),
    {
        let n = data_list.len();
        let mut i: usize = 0;
        while i < n
            invariant
                n == data_list@.len(),
                0 <= i <= n,
                self.wf(),
                self@ == old(self)@,
                forall|j: int| 0 <= j < i ==> (#[trigger] data_list@[j]).spec_valid(),
            decreases n - i,
        {
            if !data_list[i].is_valid() {
                return Err(Self::validation_err());
            }
            i += 1;
        }
        if let Err(e) = self.begin_tx() {
            return Err(Self::sql_err(&e));
        }
        let ghost m0: Map<int, RecordView> = old(self)@;
        let ghost vs: Seq<RecordView> = views_of(data_list@);
        let mut i: usize = 0;
        while i < n
            invariant
                n == data_list@.len(),
                0 <= i <= n,
                vs == views_of(data_list@),
                m0 == old(self)@,
                db_clean_schema(self.conn),
                db_in_tx(self.conn),
                db_saved(self.conn) == m0,
                db_rows(self.conn) == apply_batch(m0, vs.take(i as int)),
                m0.dom().finite(),
                forall|k: int| m0.contains_key(k) ==> (#[trigger] m0[k]).subject_id == k,
                forall|j: int| 0 <= j < n ==> (#[trigger] data_list@[j]).spec_valid(),
            decreases n - i,
        {
            match self.exec_upsert(&data_list[i]) {
                Ok(()) => {
                    proof {
                        assert(vs.take(i + 1).drop_last() =~= vs.take(i as int));
                        assert(vs.take(i + 1).last() == data_list@[i as int]@);
                    }
                },
                Err(e) => {
                    self.rollback_tx();
                    return Err(Self::sql_err(&e));
                },
            }
            i += 1;
        }
        proof {
            assert(vs.take(n as int) =~= vs);
        }
        match self.commit_tx() {
            Ok(()) => {
                proof {
                    lemma_apply_batch_wf(m0, vs);
                }
                Ok(())
            },
            Err(e) => {
                self.rollback_tx();
                Err(Self::sql_err(&e))
            },
        }
    }

    /// Removes the record for that key if present; no error if absent.
    pub fn delete_user_status(&mut self, subject_id: i64) -> (r: Result<(), StoreError>)
        requires
            old(self).wf(),
        ensures
            final(self).wf(),
            r is Ok ==> final(self)@ == old(self)@.remove(subject_id as int),
            r is Err ==> final(self)@ == old(self)@,
            r is Err ==> !r->Err_0.is_validation(),
    {
        match self.exec_delete(subject_id) {
            Ok(()) => Ok(()),
            Err(e) => Err(Self::sql_err(&e)),
        }
    }
}

/// Applying a batch to a finite, key-consistent map yields a finite,
/// key-consistent map, provided each record's view sits under its own key.
pub proof fn lemma_apply_batch_wf(m: Map<int, RecordView>, rs: Seq<RecordView>)
    requires
        m.dom().finite(),
        forall|k: int| m.contains_key(k) ==> (#[trigger] m[k]).subject_id == k,
    ensures
        apply_batch(m, rs).dom().finite(),
        forall|k: int|
            apply_batch(m, rs).contains_key(k) ==> (#[trigger] apply_batch(m, rs)[k]).subject_id
                == k,
    decreases rs.len(),
{
    if rs.len() > 0 {
        lemma_apply_batch_wf(m, rs.drop_last());
    }
}

/// Upsert idempotence: storing the same record twice leaves the same store
/// state as storing it once.
pub proof fn lemma_upsert_idempotent(m: Map<int, RecordView>, r: RecordView)
    ensures
        m.insert(r.subject_id, r).insert(r.subject_id, r) == m.insert(r.subject_id, r),
{
    assert(m.insert(r.subject_id, r).insert(r.subject_id, r) =~= m.insert(r.subject_id, r));
}

/// Upsert overwrite: writing two records under the same key leaves exactly
/// the second, as if the first had never been written (last write wins).
pub proof fn lemma_upsert_overwrite(m: Map<int, RecordView>, r1: RecordView, r2: RecordView)
    requires
        r1.subject_id == r2.subject_id,
    ensures
        m.insert(r1.subject_id, r1).insert(r2.subject_id, r2) == m.insert(r2.subject_id, r2),
        m.insert(r1.subject_id, r1).insert(r2.subject_id, r2)[r2.subject_id] == r2,
{
    assert(m.insert(r1.subject_id, r1).insert(r2.subject_id, r2) =~= m.insert(
        r2.subject_id,
        r2,
    ));
}

/// A batch neither touches nor loses a key that none of its records carries.
pub proof fn lemma_apply_batch_frame(m: Map<int, RecordView>, rs: Seq<RecordView>, k: int)
    requires
        forall|i: int| 0 <= i < rs.len() ==> (#[trigger] rs[i]).subject_id != k,
    ensures
        apply_batch(m, rs).contains_key(k) == m.contains_key(k),
        m.contains_key(k) ==> apply_batch(m, rs)[k] == m[k],
    decreases rs.len(),
{
    if rs.len() > 0 {
        lemma_apply_batch_frame(m, rs.drop_last(), k);
    }
}

/// After a batch, every key of the batch is present; the record stored under
/// a key is the last record of the batch that carries it.
pub proof fn lemma_apply_batch_covers(m: Map<int, RecordView>, rs: Seq<RecordView>)
    ensures
        forall|i: int|
            0 <= i < rs.len() ==> apply_batch(m, rs).contains_key(
                (#[trigger] rs[i]).subject_id,
            ),
    decreases rs.len(),
{
    if rs.len() > 0 {
        lemma_apply_batch_covers(m, rs.drop_last());
        assert forall|i: int| 0 <= i < rs.len() implies apply_batch(m, rs).contains_key(
            (#[trigger] rs[i]).subject_id,
        ) by {
            if i < rs.len() - 1 {
                assert(rs.drop_last()[i] == rs[i]);
            }
        }
    }
}

/// Concurrent non-interference under serialization: when two batches touch
/// disjoint key sets, running them one after the other leaves every key of
/// both batches present, and each batch's keys hold exactly the records the
/// batch alone would have left — no lost updates.
pub proof fn lemma_batch_disjoint_no_lost_updates(
    m: Map<int, RecordView>,
    a: Seq<RecordView>,
    b: Seq<RecordView>,
)
    requires
        forall|i: int, j: int|
            0 <= i < a.len() && 0 <= j < b.len() ==> (#[trigger] a[i]).subject_id != (
            #[trigger] b[j]).subject_id,
    ensures
        forall|i: int|
            0 <= i < a.len() ==> apply_batch(apply_batch(m, a), b).contains_key(
                (#[trigger] a[i]).subject_id,
            ) && apply_batch(apply_batch(m, a), b)[a[i].subject_id] == apply_batch(m, a)[a[i].subject_id],
        forall|j: int|
            0 <= j < b.len() ==> apply_batch(apply_batch(m, a), b).contains_key(
                (#[trigger] b[j]).subject_id,
            ),
{
    lemma_apply_batch_covers(m, a);
    lemma_apply_batch_covers(apply_batch(m, a), b);
    assert forall|i: int| 0 <= i < a.len() implies apply_batch(apply_batch(m, a), b).contains_key(
        (#[trigger] a[i]).subject_id,
    ) && apply_batch(apply_batch(m, a), b)[a[i].subject_id] == apply_batch(m, a)[a[i].subject_id] by {
        lemma_apply_batch_frame(apply_batch(m, a), b, a[i].subject_id);
    }
}

} // verus!
