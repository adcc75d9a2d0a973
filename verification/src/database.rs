//! The link store on the storage engine: one database with two tables, kept
//! in step by doing every change to both inside one write transaction.

use vstd::prelude::*;
use crate::clock::now_micros;
use crate::codec::{decode_record, decoded, encode_record};
use crate::engine::{
    abandon, begin_read, begin_write, commit, committed, ensure_table, made_tables, next_entry,
    open_database, path_of, read_get, read_range, staged, table_of, upcoming, write_get, write_insert,
    write_remove, Contents,
};
use crate::keys::{make_index_key, make_owner_lower, make_owner_upper};
use crate::model::{RecordView, UrlRecord};
use crate::store::{
    kept, lemma_created_stays_consistent, lemma_created_stays_indexed, lemma_deleted_stays_consistent,
    lemma_deleted_stays_indexed, may_delete, window, StoreError, StoreView,
};
use crate::text::{opt_str_view, opt_view, str_equal};

verus! {

/// The name of the primary table: identifier to stored record. The name is
/// part of the layout on disk.
pub const TABLE_URLS: &'static str = "urls_v1";

/// The name of the index table: index key to stored record. The name is part
/// of the layout on disk.
pub const TABLE_REF_INDEX: &'static str = "ref_index_v1";

/// The store: the database that holds the two tables.
///
/// The database is the store's alone. It is handed to a write transaction
/// for as long as that runs and is back when the operation returns; a store
/// that has it is well formed.
pub struct AppState {
    db: Option<redb::Database>,
}

/// The two tables of the store within the contents of its database.
pub open spec fn tables(contents: Contents) -> StoreView {
    StoreView { links: table_of(contents, TABLE_URLS@), index: table_of(contents, TABLE_REF_INDEX@) }
}

impl View for AppState {
    type V = StoreView;

    closed spec fn view(&self) -> StoreView {
        tables(committed(self.db->0))
    }
}

/// The values of a sequence of records.
pub open spec fn views(records: Seq<UrlRecord>) -> Seq<RecordView> {
    records.map_values(|r: UrlRecord| r@)
}

/// The value of an optional record.
pub open spec fn view_of(record: Option<UrlRecord>) -> Option<RecordView> {
    match record {
        Some(r) => Some(r@),
        None => None,
    }
}

/// The two table names are not empty and differ.
proof fn lemma_table_names()
    ensures
        TABLE_URLS@.len() > 0,
        TABLE_REF_INDEX@.len() > 0,
        TABLE_URLS@ != TABLE_REF_INDEX@,
{
    reveal_strlit("urls_v1");
    reveal_strlit("ref_index_v1");
}

/// Writing into the primary table changes that table of the store alone.
proof fn lemma_insert_link(contents: Contents, id: Seq<char>, value: Seq<char>)
    ensures
        tables(contents.insert((TABLE_URLS@, id), value)) == (StoreView {
            links: tables(contents).links.insert(id, value),
            index: tables(contents).index,
        }),
{
    lemma_table_names();
    let after = tables(contents.insert((TABLE_URLS@, id), value));
    assert(after.links =~= tables(contents).links.insert(id, value));
    assert(after.index =~= tables(contents).index);
}

/// Writing into the index table changes that table of the store alone.
proof fn lemma_insert_index(contents: Contents, key: Seq<char>, value: Seq<char>)
    ensures
        tables(contents.insert((TABLE_REF_INDEX@, key), value)) == (StoreView {
            links: tables(contents).links,
            index: tables(contents).index.insert(key, value),
        }),
{
    lemma_table_names();
    let after = tables(contents.insert((TABLE_REF_INDEX@, key), value));
    assert(after.links =~= tables(contents).links);
    assert(after.index =~= tables(contents).index.insert(key, value));
}

/// Removing from the primary table changes that table of the store alone.
proof fn lemma_remove_link(contents: Contents, id: Seq<char>)
    ensures
        tables(contents.remove((TABLE_URLS@, id))) == (StoreView {
            links: tables(contents).links.remove(id),
            index: tables(contents).index,
        }),
{
    lemma_table_names();
    let after = tables(contents.remove((TABLE_URLS@, id)));
    assert(after.links =~= tables(contents).links.remove(id));
    assert(after.index =~= tables(contents).index);
}

/// Removing from the index table changes that table of the store alone.
proof fn lemma_remove_index(contents: Contents, key: Seq<char>)
    ensures
        tables(contents.remove((TABLE_REF_INDEX@, key))) == (StoreView {
            links: tables(contents).links,
            index: tables(contents).index.remove(key),
        }),
{
    lemma_table_names();
    let after = tables(contents.remove((TABLE_REF_INDEX@, key)));
    assert(after.links =~= tables(contents).links);
    assert(after.index =~= tables(contents).index.remove(key));
}

/// Opens the database file at `db_path`, making it where it does not exist,
/// and makes sure that both tables exist in it, as [`make_tables`] does. On
/// success the database is the one opened at `db_path`, and both tables
/// exist in it. Every failure is a failure of the engine.
pub fn init_db(db_path: &str) -> (opened: Result<redb::Database, StoreError>)
    ensures
        match opened {
            Ok(db) => {
                &&& path_of(db) == db_path@
                &&& made_tables(db).contains(TABLE_URLS@)
                &&& made_tables(db).contains(TABLE_REF_INDEX@)
            },
            Err(e) => e is Storage,
        },
{
    match open_database(db_path) {
        Ok(db) => make_tables(db),
        Err(e) => Err(StoreError::Storage(e)),
    }
}

/// Makes sure that both tables of the store exist in `db`, in one write
/// transaction: a table that is missing is made, empty; a table that is
/// there is left alone. On success the database comes back, the same file,
/// with every entry that it held and with the two tables added to those that
/// existed. Every failure is a failure of the engine.
pub fn make_tables(db: redb::Database) -> (made: Result<redb::Database, StoreError>)
    ensures
        match made {
            Ok(out) => {
                &&& path_of(out) == path_of(db)
                &&& committed(out) == committed(db)
                &&& made_tables(out) == made_tables(db).insert(TABLE_URLS@).insert(TABLE_REF_INDEX@)
            },
            Err(e) => e is Storage,
        },
{
    proof {
        lemma_table_names();
    }
    let mut session = match begin_write(db) {
        Ok(session) => session,
        Err((_, e)) => { return Err(StoreError::Storage(e)); },
    };
    match ensure_table(&mut session, TABLE_URLS) {
        Ok(()) => {},
        Err(e) => {
            let _ = abandon(session);
            return Err(StoreError::Storage(e));
        },
    }
    match ensure_table(&mut session, TABLE_REF_INDEX) {
        Ok(()) => {},
        Err(e) => {
            let _ = abandon(session);
            return Err(StoreError::Storage(e));
        },
    }
    match commit(session) {
        (out, Ok(())) => Ok(out),
        (_, Err(e)) => Err(StoreError::Storage(e)),
    }
}

impl AppState {
    /// Whether the store is well formed: it has its database.
    pub closed spec fn wf(&self) -> bool {
        self.db is Some
    }

    /// The store on `db`, which is the store's alone from here on. The
    /// tables must exist: [`init_db`] opens a database and makes them.
    pub fn new(db: redb::Database) -> (state: AppState)
        ensures
            state.wf(),
            state@ == tables(committed(db)),
    {
        AppState { db: Some(db) }
    }

    /// Whether the store is well formed, for callers that cannot know it.
    pub fn is_ready(&self) -> (ready: bool)
        ensures
            ready == self.wf(),
    {
        self.db.is_some()
    }

    /// Gives the database back and ends the store.
    pub fn into_db(self) -> (db: redb::Database)
        requires
            self.wf(),
        ensures
            tables(committed(db)) == self@,
    {
        self.db.unwrap()
    }

    /// Writes `record` into the store, unless its identifier is taken.
    ///
    /// The check and both writes happen in one write transaction. On success
    /// the record is in the primary table and, where it has an owner, in the
    /// index. A taken identifier is a conflict and leaves the store as it
    /// was. Where the engine fails before the commit, the store is as it was;
    /// where the commit itself fails, it is as it was or holds the record.
    pub fn create_record(&mut self, record: UrlRecord) -> (made: Result<UrlRecord, StoreError>)
        requires
            old(self).wf(),
            record.id@.len() > 0,
        ensures
            final(self).wf(),
            match made {
                Ok(r) => r == record && old(self)@.created(record@) == Ok::<StoreView, StoreError>(final(self)@),
                Err(StoreError::Conflict) => old(self)@.taken(record.id@) && final(self)@ == old(self)@,
                Err(StoreError::Storage(_)) => final(self)@ == old(self)@ || old(self)@.created(record@) == Ok::<
                    StoreView,
                    StoreError,
                >(final(self)@),
                Err(_) => false,
            },
            old(self)@.consistent() ==> final(self)@.consistent(),
            old(self)@.fully_indexed() && old(self)@.key_is_free(record@) ==> final(self)@.fully_indexed(),
    {
        proof {
            lemma_table_names();
            if old(self)@.created(record@) is Ok {
                let after = old(self)@.with_record(record@);
                if old(self)@.consistent() {
                    lemma_created_stays_consistent(old(self)@, record@, after);
                }
                if old(self)@.fully_indexed() && old(self)@.key_is_free(record@) {
                    lemma_created_stays_indexed(old(self)@, record@, after);
                }
            }
        }
        let db = self.db.take().unwrap();
        let mut session = match begin_write(db) {
            Ok(session) => session,
            Err((db, e)) => {
                self.db = Some(db);
                return Err(StoreError::Storage(e));
            },
        };
        let ghost before = staged(session);
        match write_get(&mut session, TABLE_URLS, record.id.as_str()) {
            Ok(Some(_)) => {
                self.db = Some(abandon(session));
                return Err(StoreError::Conflict);
            },
            Ok(None) => {},
            Err(e) => {
                self.db = Some(abandon(session));
                return Err(StoreError::Storage(e));
            },
        }
        let stored = encode_record(&record);
        match write_insert(&mut session, TABLE_URLS, record.id.as_str(), stored.as_str()) {
            Ok(()) => {},
            Err(e) => {
                self.db = Some(abandon(session));
                return Err(StoreError::Storage(e));
            },
        }
        proof {
            lemma_insert_link(before, record.id@, stored@);
        }
        match &record.ref_id {
            Some(owner) => {
                let key = make_index_key(owner.as_str(), record.created_at);
                let ghost mid = staged(session);
                match write_insert(&mut session, TABLE_REF_INDEX, key.as_str(), stored.as_str()) {
                    Ok(()) => {},
                    Err(e) => {
                        self.db = Some(abandon(session));
                        return Err(StoreError::Storage(e));
                    },
                }
                proof {
                    lemma_insert_index(mid, key@, stored@);
                }
            },
            None => {},
        }
        assert(tables(staged(session)) == old(self)@.with_record(record@));
        let (db, done) = commit(session);
        self.db = Some(db);
        match done {
            Ok(()) => Ok(record),
            Err(e) => Err(StoreError::Storage(e)),
        }
    }

    /// Makes a record of the given fields, stamped with the current time and
    /// with no clicks, and writes it into the store as [`Self::create_record`]
    /// does.
    pub fn create(&mut self, id: String, original_url: String, short_url: String, ref_id: Option<String>) -> (made:
        Result<UrlRecord, StoreError>)
        requires
            old(self).wf(),
            id@.len() > 0,
        ensures
            final(self).wf(),
            match made {
                Ok(r) => {
                    &&& r.id == id && r.original_url == original_url && r.short_url == short_url && r.ref_id
                        == ref_id
                    &&& r.created_at >= 0 && r.clicks == 0
                    &&& old(self)@.created(r@) == Ok::<StoreView, StoreError>(final(self)@)
                },
                Err(StoreError::Conflict) => old(self)@.taken(id@) && final(self)@ == old(self)@,
                Err(StoreError::Storage(_)) => final(self)@ == old(self)@ || (!old(self)@.taken(id@) && exists|
                    created_at: i64,
                |
                    final(self)@ == old(self)@.with_record(
                        #[trigger] stamped(id@, original_url@, short_url@, opt_view(ref_id), created_at),
                    )),
                Err(_) => false,
            },
            old(self)@.consistent() ==> final(self)@.consistent(),
    {
        let created_at = now_micros();
        let record = UrlRecord { id, original_url, short_url, ref_id, created_at, clicks: 0 };
        assert(record@ == stamped(id@, original_url@, short_url@, opt_view(ref_id), created_at));
        self.create_record(record)
    }

    /// Looks up the record under `id` in a snapshot of the store. A stored
    /// value that is not the stored form of a record counts as no record.
    pub fn get_by_id(&self, id: &str) -> (found: Result<Option<UrlRecord>, StoreError>)
        requires
            self.wf(),
        ensures
            match found {
                Ok(record) => view_of(record) == self@.record(id@),
                Err(e) => e is Storage,
            },
    {
        proof {
            lemma_table_names();
        }
        let txn = match begin_read(self.db.as_ref().unwrap()) {
            Ok(txn) => txn,
            Err(e) => { return Err(StoreError::Storage(e)); },
        };
        match read_get(&txn, TABLE_URLS, id) {
            Ok(Some(stored)) => Ok(decode_record(stored.as_str())),
            Ok(None) => Ok(None),
            Err(e) => Err(StoreError::Storage(e)),
        }
    }

    /// Lists one page of records: of `ref_id`'s records in the order of their
    /// index keys, which is the order of their creation, or, without an
    /// owner, of all records in the order of their identifiers.
    ///
    /// Pages are counted from 1 and hold `limit` entries of the scan. An
    /// entry whose value is not the stored form of a record takes its place
    /// on the page and is left out of the result, so a page can come back
    /// with fewer than `limit` records. The scan runs over one snapshot.
    pub fn list(&self, ref_id: Option<&str>, page: usize, limit: usize) -> (listed: Result<Vec<UrlRecord>, StoreError>)
        requires
            self.wf(),
            page >= 1,
        ensures
            match listed {
                Ok(records) => self@.lists(opt_str_view(ref_id), page as int, limit as int, views(records@)),
                Err(e) => e is Storage,
            },
    {
        proof {
            lemma_table_names();
        }
        let txn = match begin_read(self.db.as_ref().unwrap()) {
            Ok(txn) => txn,
            Err(e) => { return Err(StoreError::Storage(e)); },
        };
        let scan = match ref_id {
            Some(owner) => {
                let lo = make_owner_lower(owner);
                let hi = make_owner_upper(owner);
                read_range(&txn, TABLE_REF_INDEX, Some(lo.as_str()), Some(hi.as_str()))
            },
            None => read_range(&txn, TABLE_URLS, None, None),
        };
        let mut cursor = match scan {
            Ok(cursor) => cursor,
            Err(e) => { return Err(StoreError::Storage(e)); },
        };
        let ghost entries = upcoming(cursor);
        assert(self@.scanned(opt_str_view(ref_id), entries));
        assert(entries.skip(0) =~= entries);
        let before: u128 = (page - 1) as u128;
        let per_page: u128 = limit as u128;
        assert(before * per_page <= 0xffff_ffff_ffff_ffff * 0xffff_ffff_ffff_ffff) by (nonlinear_arith)
            requires
                before <= 0xffff_ffff_ffff_ffff,
                per_page <= 0xffff_ffff_ffff_ffff,
        ;
        let offset: u128 = before * per_page;
        assert(offset == (page - 1) * limit);
        let mut skipped: u128 = 0;
        while skipped < offset
            invariant
                offset == (page - 1) * limit,
                self@.scanned(opt_str_view(ref_id), entries),
                skipped <= offset,
                skipped <= entries.len(),
                upcoming(cursor) == entries.skip(skipped as int),
            decreases offset - skipped,
        {
            match next_entry(&mut cursor) {
                None => {
                    let records: Vec<UrlRecord> = Vec::new();
                    assert(window(entries, page as int, limit as int) =~= Seq::empty());
                    assert(views(records@) =~= kept(window(entries, page as int, limit as int)));
                    return Ok(records);
                },
                Some(Err(e)) => {
                    return Err(StoreError::Storage(e));
                },
                Some(Ok(_)) => {
                    assert(entries.skip(skipped as int).drop_first() =~= entries.skip(skipped as int + 1));
                    skipped = skipped + 1;
                },
            }
        }
        let mut records: Vec<UrlRecord> = Vec::new();
        let mut taken: usize = 0;
        assert(entries.subrange(offset as int, offset as int) =~= Seq::empty());
        assert(views(records@) =~= kept(entries.subrange(offset as int, offset as int)));
        while taken < limit
            invariant
                taken <= limit,
                offset + taken <= entries.len(),
                upcoming(cursor) == entries.skip(offset + taken),
                views(records@) == kept(entries.subrange(offset as int, offset + taken)),
            ensures
                offset + taken <= entries.len(),
                taken == limit || offset + taken == entries.len(),
                views(records@) == kept(entries.subrange(offset as int, offset + taken)),
            decreases limit - taken,
        {
            match next_entry(&mut cursor) {
                None => {
                    break;
                },
                Some(Err(e)) => {
                    return Err(StoreError::Storage(e));
                },
                Some(Ok(entry)) => {
                    let ghost seen = entries.subrange(offset as int, offset + taken);
                    let ghost item = entries[offset + taken];
                    proof {
                        assert(entries.skip(offset + taken)[0] == item);
                        assert(entries.skip(offset + taken).drop_first() =~= entries.skip(offset + taken + 1));
                        assert(entries.subrange(offset as int, offset + taken + 1) =~= seen.push(item));
                        lemma_kept_push(seen, item);
                    }
                    match decode_record(entry.1.as_str()) {
                        Some(record) => {
                            let ghost had = records@;
                            records.push(record);
                            assert(views(records@) =~= views(had).push(record@));
                        },
                        None => {},
                    }
                    taken = taken + 1;
                },
            }
        }
        assert(window(entries, page as int, limit as int) =~= entries.subrange(offset as int, offset + taken));
        Ok(records)
    }

    /// Deletes the record under `id` for a caller who claims to be
    /// `requester`, in one write transaction.
    ///
    /// With no record under `id`, or none that reads, the answer is not
    /// found. With a claim that does not name the record's owner, it is
    /// forbidden; without a claim nothing is checked. Else the record leaves
    /// the primary table and, where it has an owner, the index. Every refusal
    /// leaves the store as it was. Where the engine fails before the commit,
    /// the store is as it was; where the commit itself fails, it is as it was
    /// or without the record.
    pub fn delete(&mut self, id: &str, requester: Option<&str>) -> (done: Result<(), StoreError>)
        requires
            old(self).wf(),
        ensures
            final(self).wf(),
            match done {
                Ok(()) => old(self)@.deleted(id@, opt_str_view(requester)) == Ok::<StoreView, StoreError>(
                    final(self)@,
                ),
                Err(StoreError::NotFound) => old(self)@.record(id@) is None && final(self)@ == old(self)@,
                Err(StoreError::Forbidden) => {
                    &&& old(self)@.record(id@) matches Some(r)
                    &&& !may_delete(r, opt_str_view(requester))
                    &&& final(self)@ == old(self)@
                },
                Err(StoreError::Storage(_)) => final(self)@ == old(self)@ || old(self)@.deleted(
                    id@,
                    opt_str_view(requester),
                ) == Ok::<StoreView, StoreError>(final(self)@),
                Err(StoreError::Conflict) => false,
            },
            old(self)@.consistent() ==> final(self)@.consistent(),
            old(self)@.fully_indexed() ==> final(self)@.fully_indexed(),
    {
        proof {
            lemma_table_names();
            if let Ok(after) = old(self)@.deleted(id@, opt_str_view(requester)) {
                if old(self)@.consistent() {
                    lemma_deleted_stays_consistent(old(self)@, id@, opt_str_view(requester), after);
                }
                if old(self)@.fully_indexed() {
                    lemma_deleted_stays_indexed(old(self)@, id@, opt_str_view(requester), after);
                }
            }
        }
        let db = self.db.take().unwrap();
        let mut session = match begin_write(db) {
            Ok(session) => session,
            Err((db, e)) => {
                self.db = Some(db);
                return Err(StoreError::Storage(e));
            },
        };
        let ghost before = staged(session);
        let stored = match write_get(&mut session, TABLE_URLS, id) {
            Ok(Some(stored)) => stored,
            Ok(None) => {
                self.db = Some(abandon(session));
                return Err(StoreError::NotFound);
            },
            Err(e) => {
                self.db = Some(abandon(session));
                return Err(StoreError::Storage(e));
            },
        };
        let record = match decode_record(stored.as_str()) {
            Some(record) => record,
            None => {
                self.db = Some(abandon(session));
                return Err(StoreError::NotFound);
            },
        };
        if !permits(&record, requester) {
            self.db = Some(abandon(session));
            return Err(StoreError::Forbidden);
        }
        match write_remove(&mut session, TABLE_URLS, id) {
            Ok(()) => {},
            Err(e) => {
                self.db = Some(abandon(session));
                return Err(StoreError::Storage(e));
            },
        }
        proof {
            lemma_remove_link(before, id@);
        }
        match &record.ref_id {
            Some(owner) => {
                let key = make_index_key(owner.as_str(), record.created_at);
                let ghost mid = staged(session);
                match write_remove(&mut session, TABLE_REF_INDEX, key.as_str()) {
                    Ok(()) => {},
                    Err(e) => {
                        self.db = Some(abandon(session));
                        return Err(StoreError::Storage(e));
                    },
                }
                proof {
                    lemma_remove_index(mid, key@);
                }
            },
            None => {},
        }
        assert(tables(staged(session)) == old(self)@.without_record(id@, record@));
        let (db, done) = commit(session);
        self.db = Some(db);
        match done {
            Ok(()) => Ok(()),
            Err(e) => Err(StoreError::Storage(e)),
        }
    }
}

/// A run of entries with one more entry holds the records of the run and,
/// where it reads, the record of that entry.
proof fn lemma_kept_push(entries: Seq<(Seq<char>, Seq<char>)>, entry: (Seq<char>, Seq<char>))
    ensures
        kept(entries.push(entry)) == (match decoded(entry.1) {
            Some(r) => kept(entries).push(r),
            None => kept(entries),
        }),
{
    assert(entries.push(entry).drop_last() =~= entries);
}

/// The record that `create` makes of its arguments and a time.
pub open spec fn stamped(
    id: Seq<char>,
    original_url: Seq<char>,
    short_url: Seq<char>,
    ref_id: Option<Seq<char>>,
    created_at: i64,
) -> RecordView {
    RecordView { id, original_url, short_url, ref_id, created_at, clicks: 0 }
}

/// Whether a caller who claims to be `requester` may delete `record`: with no
/// claim, always; with a claim, only where it names the record's owner.
pub fn permits(record: &UrlRecord, requester: Option<&str>) -> (allowed: bool)
    ensures
        allowed == may_delete(record@, opt_str_view(requester)),
{
    match requester {
        None => true,
        Some(claimed) => match &record.ref_id {
            Some(owner) => str_equal(owner.as_str(), claimed),
            None => false,
        },
    }
}

} // verus!
