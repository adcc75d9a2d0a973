//! The storage engine: an ordered, transactional key-value store with named
//! tables, here the embedded database `redb`.
//!
//! Nothing in this module is proved. Each function below makes one kind of
//! call into the engine and states what the engine's documentation and source
//! say of it, over a model in which a database maps pairs of a table name and
//! a key to a value, and has a set of tables that exist. A table that does not
//! exist holds nothing.

use vstd::prelude::*;
use crate::text::{opt_str_view, opt_view};

verus! {

/// What a database holds, in the model: what every pair of a table name and a
/// key is mapped to.
pub type Contents = Map<(Seq<char>, Seq<char>), Seq<char>>;

/// `redb::Database`: the handle of an open database file.
#[verifier::external_type_specification]
#[verifier::external_body]
pub struct ExDatabase(redb::Database);

/// `redb::WriteTransaction`: a read/write transaction.
#[verifier::external_type_specification]
#[verifier::external_body]
pub struct ExWriteTransaction(redb::WriteTransaction);

/// `redb::ReadTransaction`: a read-only transaction on a snapshot.
#[verifier::external_type_specification]
#[verifier::external_body]
pub struct ExReadTransaction(redb::ReadTransaction);

/// A scan in progress: the engine's iterator over a range of one table of a
/// snapshot, `redb::Range` with string keys and values.
#[verifier::external_body]
pub struct Cursor {
    inner: redb::Range<'static, &'static str, &'static str>,
}

/// `redb::Error`: the engine's error, of any kind.
#[verifier::external_type_specification]
#[verifier::external_body]
pub struct ExError(redb::Error);

/// What the database holds as of its last commit.
pub uninterp spec fn committed(db: redb::Database) -> Map<(Seq<char>, Seq<char>), Seq<char>>;

/// The names of the tables that exist in the database as of its last commit.
pub uninterp spec fn made_tables(db: redb::Database) -> Set<Seq<char>>;

/// The path of the file that the database was opened at.
pub uninterp spec fn path_of(db: redb::Database) -> Seq<char>;

/// The committed state that a read transaction captured when it began.
pub uninterp spec fn snapshot(txn: redb::ReadTransaction) -> Map<(Seq<char>, Seq<char>), Seq<char>>;

/// The entries that a cursor has yet to yield, next one first.
pub uninterp spec fn upcoming(cursor: Cursor) -> Seq<(Seq<char>, Seq<char>)>;

/// The order of keys in a table: `a` comes strictly before `b` when, at the
/// first position where they differ, `a` has the smaller character, or when
/// `a` is a proper prefix of `b`. The engine orders string keys as Rust orders
/// strings, by their UTF-8 bytes, and that is the order of their characters.
pub open spec fn key_lt(a: Seq<char>, b: Seq<char>) -> bool
    decreases a.len(),
{
    if b.len() == 0 {
        false
    } else if a.len() == 0 {
        true
    } else if a[0] != b[0] {
        a[0] < b[0]
    } else {
        key_lt(a.drop_first(), b.drop_first())
    }
}

/// Whether `key` lies in the half-open range from `lo` (included) to `hi`
/// (excluded); a bound that is `None` does not bound.
pub open spec fn key_within(key: Seq<char>, lo: Option<Seq<char>>, hi: Option<Seq<char>>) -> bool {
    &&& lo matches Some(l) ==> !key_lt(key, l)
    &&& hi matches Some(h) ==> key_lt(key, h)
}

/// One table of the model: what its keys are mapped to.
pub open spec fn table_of(contents: Contents, table: Seq<char>) -> Map<Seq<char>, Seq<char>> {
    Map::new(|key: Seq<char>| contents.dom().contains((table, key)), |key: Seq<char>| contents[(table, key)])
}

/// Whether `entries` is the scan of a table between `lo` and `hi`: every entry
/// of the table whose key is in range, each once, in ascending key order.
pub open spec fn is_scan(
    table: Map<Seq<char>, Seq<char>>,
    lo: Option<Seq<char>>,
    hi: Option<Seq<char>>,
    entries: Seq<(Seq<char>, Seq<char>)>,
) -> bool {
    &&& forall|i: int, j: int| 0 <= i < j < entries.len() ==> key_lt(#[trigger] entries[i].0, #[trigger] entries[j].0)
    &&& forall|i: int| 0 <= i < entries.len() ==> {
        &&& table.contains_pair((#[trigger] entries[i]).0, entries[i].1)
        &&& key_within(entries[i].0, lo, hi)
    }
    &&& forall|key: Seq<char>| #[trigger] table.dom().contains(key) && key_within(key, lo, hi)
        ==> exists|i: int| 0 <= i < entries.len() && (#[trigger] entries[i]).0 == key
}

/// What a point lookup finds under `key` in a table.
pub open spec fn lookup(table: Map<Seq<char>, Seq<char>>, key: Seq<char>) -> Option<Seq<char>> {
    if table.dom().contains(key) {
        Some(table[key])
    } else {
        None
    }
}

/// A write transaction in progress, together with the database it runs on.
///
/// The engine lets one write transaction run at a time: a second
/// `begin_write` waits for the first to end. A session takes the database
/// with it when it begins and hands it back when it ends, so a second one
/// cannot begin in between, and a session always ends on the database it
/// began on.
pub struct WriteSession {
    db: redb::Database,
    txn: redb::WriteTransaction,
}

/// What a session would commit: the state that its transaction began with,
/// changed by the writes made through it so far.
pub uninterp spec fn staged(session: WriteSession) -> Map<(Seq<char>, Seq<char>), Seq<char>>;

/// The names of the tables that exist in what a session would commit.
pub uninterp spec fn staged_tables(session: WriteSession) -> Set<Seq<char>>;

impl WriteSession {
    /// The database that the session runs on. Nothing but a commit changes
    /// it, so while the session runs it is as it was when the session began.
    pub closed spec fn home(self) -> redb::Database {
        self.db
    }

    /// What the database holds while the session runs: its committed state
    /// when the session began.
    pub open spec fn base(self) -> Contents {
        committed(self.home())
    }
}

/// Whether `db` is in the state that `session` would commit.
pub open spec fn is_committed(db: redb::Database, session: WriteSession) -> bool {
    committed(db) == staged(session) && made_tables(db) == staged_tables(session)
}

/// Whether `db` is in the state that the database of `session` was in when
/// the session began.
pub open spec fn is_rolled_back(db: redb::Database, session: WriteSession) -> bool {
    committed(db) == session.base() && made_tables(db) == made_tables(session.home())
}

/// `redb::Database::create`: opens the database file at `path`, making a new
/// database where the file is missing or empty. Nothing is claimed of what an
/// existing file holds.
#[verifier::external_body]
pub(crate) fn open_database(path: &str) -> (opened: Result<redb::Database, redb::Error>)
    ensures
        opened matches Ok(db) ==> path_of(db) == path@,
{
    redb::Database::create(path).map_err(redb::Error::from)
}

/// `redb::Database::begin_write`: a write transaction that starts from the
/// committed state, tables and contents. Where it cannot begin, the database
/// comes back as it was.
#[verifier::external_body]
pub(crate) fn begin_write(db: redb::Database) -> (begun: Result<WriteSession, (redb::Database, redb::Error)>)
    ensures
        match begun {
            Ok(session) => {
                &&& session.home() == db
                &&& staged(session) == committed(db)
                &&& staged_tables(session) == made_tables(db)
            },
            Err((back, _)) => back == db,
        },
{
    match db.begin_write() {
        Ok(txn) => Ok(WriteSession { db, txn }),
        Err(e) => Err((db, redb::Error::from(e))),
    }
}

/// `redb::ReadableDatabase::begin_read`: a read transaction that sees the
/// state committed before the call, and nothing committed later.
#[verifier::external_body]
pub(crate) fn begin_read(db: &redb::Database) -> (begun: Result<redb::ReadTransaction, redb::Error>)
    ensures
        begun matches Ok(txn) ==> snapshot(txn) == committed(*db),
{
    redb::ReadableDatabase::begin_read(db).map_err(redb::Error::from)
}

/// `redb::WriteTransaction::open_table`: makes `table` exist, empty if it was
/// not there. No entry of any table changes. Nothing is committed by it.
#[verifier::external_body]
pub(crate) fn ensure_table(session: &mut WriteSession, table: &str) -> (made: Result<(), redb::Error>)
    requires
        table@.len() > 0,
    ensures
        final(session).home() == old(session).home(),
        made is Ok ==> staged(*final(session)) == staged(*old(session)),
        made is Ok ==> staged_tables(*final(session)) == staged_tables(*old(session)).insert(table@),
{
    session.txn.open_table(redb::TableDefinition::<&str, &str>::new(table)).map(|_| ()).map_err(redb::Error::from)
}

/// `redb::ReadableTable::get` on a table of a write transaction: the value
/// under `key` as the transaction sees it, `None` where there is none. The
/// table is opened for it, which makes it exist; no entry changes, and
/// nothing is committed.
#[verifier::external_body]
pub(crate) fn write_get(session: &mut WriteSession, table: &str, key: &str) -> (found: Result<Option<String>, redb::Error>)
    requires
        table@.len() > 0,
    ensures
        final(session).home() == old(session).home(),
        found matches Ok(value) ==> opt_view(value) == lookup(table_of(staged(*old(session)), table@), key@),
        found is Ok ==> staged(*final(session)) == staged(*old(session)),
        found is Ok ==> staged_tables(*final(session)) == staged_tables(*old(session)).insert(table@),
{
    let opened = session.txn.open_table(redb::TableDefinition::<&str, &str>::new(table))?;
    let guard = redb::ReadableTable::get(&opened, key)?;
    Ok(guard.map(|g| g.value().to_string()))
}

/// `redb::Table::insert`: maps `key` to `value` in `table`, replacing what was
/// there. The table is opened for it, which makes it exist. Nothing is
/// committed by it. After an error nothing is known of what the transaction
/// would commit.
#[verifier::external_body]
pub(crate) fn write_insert(session: &mut WriteSession, table: &str, key: &str, value: &str) -> (done: Result<(), redb::Error>)
    requires
        table@.len() > 0,
    ensures
        final(session).home() == old(session).home(),
        done is Ok ==> staged(*final(session)) == staged(*old(session)).insert((table@, key@), value@),
        done is Ok ==> staged_tables(*final(session)) == staged_tables(*old(session)).insert(table@),
{
    let mut opened = session.txn.open_table(redb::TableDefinition::<&str, &str>::new(table))?;
    opened.insert(key, value)?;
    Ok(())
}

/// `redb::Table::remove`: takes `key` out of `table`; no entry changes where
/// it was not there. The table is opened for it, which makes it exist.
/// Nothing is committed by it. After an error nothing is known of what the
/// transaction would commit.
#[verifier::external_body]
pub(crate) fn write_remove(session: &mut WriteSession, table: &str, key: &str) -> (done: Result<(), redb::Error>)
    requires
        table@.len() > 0,
    ensures
        final(session).home() == old(session).home(),
        done is Ok ==> staged(*final(session)) == staged(*old(session)).remove((table@, key@)),
        done is Ok ==> staged_tables(*final(session)) == staged_tables(*old(session)).insert(table@),
{
    let mut opened = session.txn.open_table(redb::TableDefinition::<&str, &str>::new(table))?;
    opened.remove(key)?;
    Ok(())
}

/// `redb::WriteTransaction::commit`: makes the transaction's state, tables
/// and contents, the committed state of its database, and hands the database
/// back: the same file. A commit is atomic: where it reports an error, the
/// committed state is either the old one or the transaction's, never a
/// mixture.
#[verifier::external_body]
pub(crate) fn commit(session: WriteSession) -> (ended: (redb::Database, Result<(), redb::Error>))
    ensures
        path_of(ended.0) == path_of(session.home()),
        ended.1 is Ok ==> is_committed(ended.0, session),
        ended.1 is Err ==> is_committed(ended.0, session) || is_rolled_back(ended.0, session),
{
    let WriteSession { db, txn } = session;
    let done = txn.commit().map_err(redb::Error::from);
    (db, done)
}

/// `redb::WriteTransaction::abort`: rolls the transaction's writes back, and
/// hands the database back as it was when the transaction began.
#[verifier::external_body]
pub(crate) fn abandon(session: WriteSession) -> (db: redb::Database)
    ensures
        db == session.home(),
{
    let WriteSession { db, txn } = session;
    let _ = txn.abort();
    db
}

/// `redb::ReadOnlyTable::get`: the value under `key` in the snapshot, `None`
/// where there is none. A table that was never made is an error.
#[verifier::external_body]
pub(crate) fn read_get(txn: &redb::ReadTransaction, table: &str, key: &str) -> (found: Result<Option<String>, redb::Error>)
    requires
        table@.len() > 0,
    ensures
        found matches Ok(value) ==> opt_view(value) == lookup(table_of(snapshot(*txn), table@), key@),
{
    let opened = txn.open_table(redb::TableDefinition::<&str, &str>::new(table))?;
    let guard = opened.get(key)?;
    Ok(guard.map(|g| g.value().to_string()))
}

/// `redb::ReadOnlyTable::range`: an iterator over the entries of `table` from
/// `lo`, included, to `hi`, excluded, in ascending key order. A bound that is
/// `None` does not bound.
#[verifier::external_body]
pub(crate) fn read_range(txn: &redb::ReadTransaction, table: &str, lo: Option<&str>, hi: Option<&str>) -> (scan: Result<Cursor, redb::Error>)
    requires
        table@.len() > 0,
    ensures
        scan matches Ok(cursor) ==> is_scan(
            table_of(snapshot(*txn), table@),
            opt_str_view(lo),
            opt_str_view(hi),
            upcoming(cursor),
        ),
{
    let opened = txn.open_table(redb::TableDefinition::<&str, &str>::new(table))?;
    let from = lo.map_or(std::ops::Bound::Unbounded, std::ops::Bound::Included);
    let to = hi.map_or(std::ops::Bound::Unbounded, std::ops::Bound::Excluded);
    Ok(Cursor { inner: opened.range::<&str>((from, to))? })
}

/// `Iterator::next` of `redb::Range`: the next entry, as owned strings. `None`
/// comes only when no entry is left. An entry comes only when one is left,
/// and is the next one. What cannot be read comes as an error, after which
/// nothing is known of what is left.
#[verifier::external_body]
pub(crate) fn next_entry(cursor: &mut Cursor) -> (item: Option<Result<(String, String), redb::Error>>)
    ensures
        item is None ==> upcoming(*old(cursor)).len() == 0 && upcoming(*final(cursor)).len() == 0,
        item matches Some(Ok(entry)) ==> {
            &&& upcoming(*old(cursor)).len() > 0
            &&& (entry.0@, entry.1@) == upcoming(*old(cursor))[0]
            &&& upcoming(*final(cursor)) == upcoming(*old(cursor)).drop_first()
        },
{
    let item = cursor.inner.next()?;
    Some(item.map(|(k, v)| (k.value().to_string(), v.value().to_string())).map_err(redb::Error::from))
}

} // verus!
