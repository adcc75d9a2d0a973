//! The link store as a mathematical object: two tables, the operations on
//! them as functions from state to state, and what those functions guarantee.
//!
//! The primary table maps an identifier to the stored form of its record. The
//! index table maps the index key of each owned record to the same stored
//! form. The executable store of [`crate::database`] is specified by the
//! functions of this module.

use vstd::prelude::*;
use crate::codec::{decoded, encoded, lemma_decode_encoded};
use crate::engine::{is_scan, key_lt, key_within};
use crate::keys::{
    colon_free, index_key, lemma_index_key_within_owner, lemma_key_lt_asymmetric,
    lemma_key_lt_irreflexive, lemma_within_owner_is_owner, owner_lower, owner_upper,
};
use crate::model::RecordView;

verus! {

/// Why the store did not do what it was asked.
#[derive(Debug)]
pub enum StoreError {
    /// The identifier is taken: a record with it exists.
    Conflict,
    /// No record with the identifier exists.
    NotFound,
    /// The caller claimed an owner, and the record is another owner's or has none.
    Forbidden,
    /// The storage engine failed; the engine's own error is inside.
    Storage(redb::Error),
}

/// The state of the store: its two tables.
#[verifier::ext_equal]
pub struct StoreView {
    /// The primary table: identifier to stored record.
    pub links: Map<Seq<char>, Seq<char>>,
    /// The index table: index key to stored record.
    pub index: Map<Seq<char>, Seq<char>>,
}

/// Whether a caller who claims to be `requester` may delete the record `r`:
/// with no claim, always; with a claim, only the owner.
pub open spec fn may_delete(r: RecordView, requester: Option<Seq<char>>) -> bool {
    requester matches Some(claimed) ==> r.ref_id == Some(claimed)
}

/// The records that a run of table entries holds: each value that is the
/// stored form of a record, in order; the others are passed over.
pub open spec fn kept(entries: Seq<(Seq<char>, Seq<char>)>) -> Seq<RecordView>
    decreases entries.len(),
{
    if entries.len() == 0 {
        Seq::empty()
    } else {
        let before = kept(entries.drop_last());
        match decoded(entries.last().1) {
            Some(r) => before.push(r),
            None => before,
        }
    }
}

/// The entries of page `page` of a scan, with `limit` entries to a page and
/// pages counted from 1: those after the first `(page - 1) * limit`, up to
/// `limit` of them.
pub open spec fn window(entries: Seq<(Seq<char>, Seq<char>)>, page: int, limit: int) -> Seq<(Seq<char>, Seq<char>)> {
    let start = if (page - 1) * limit < entries.len() { (page - 1) * limit } else { entries.len() as int };
    let end = if start + limit < entries.len() { start + limit } else { entries.len() as int };
    entries.subrange(start, end)
}

impl StoreView {
    /// Whether a record with this identifier exists.
    pub open spec fn taken(self, id: Seq<char>) -> bool {
        self.links.dom().contains(id)
    }

    /// The record under `id`: `None` where there is none, and where what is
    /// stored there is not the stored form of a record.
    pub open spec fn record(self, id: Seq<char>) -> Option<RecordView> {
        if self.links.dom().contains(id) {
            decoded(self.links[id])
        } else {
            None
        }
    }

    /// The store with `r` written: into the primary table under its
    /// identifier and, where it has an owner, into the index under its index
    /// key.
    pub open spec fn with_record(self, r: RecordView) -> StoreView {
        StoreView {
            links: self.links.insert(r.id, encoded(r)),
            index: match r.ref_id {
                Some(owner) => self.index.insert(index_key(owner, r.created_at), encoded(r)),
                None => self.index,
            },
        }
    }

    /// The store with the record `r` under `id` removed: from the primary
    /// table and, where it has an owner, from the index.
    pub open spec fn without_record(self, id: Seq<char>, r: RecordView) -> StoreView {
        StoreView {
            links: self.links.remove(id),
            index: match r.ref_id {
                Some(owner) => self.index.remove(index_key(owner, r.created_at)),
                None => self.index,
            },
        }
    }

    /// Creating `r`: refused where its identifier is taken, else the store
    /// with `r` written.
    pub open spec fn created(self, r: RecordView) -> Result<StoreView, StoreError> {
        if self.taken(r.id) {
            Err(StoreError::Conflict)
        } else {
            Ok(self.with_record(r))
        }
    }

    /// Deleting the record under `id` for a caller who claims to be
    /// `requester`: not found where there is no record, forbidden where the
    /// claim does not match, else the store without the record.
    pub open spec fn deleted(self, id: Seq<char>, requester: Option<Seq<char>>) -> Result<StoreView, StoreError> {
        match self.record(id) {
            None => Err(StoreError::NotFound),
            Some(r) => if may_delete(r, requester) {
                Ok(self.without_record(id, r))
            } else {
                Err(StoreError::Forbidden)
            },
        }
    }

    /// Whether `entries` is the scan that a listing for `owner` walks: the
    /// owner's stretch of the index, or, without an owner, the whole primary
    /// table in the order of its identifiers.
    pub open spec fn scanned(self, owner: Option<Seq<char>>, entries: Seq<(Seq<char>, Seq<char>)>) -> bool {
        match owner {
            Some(o) => is_scan(self.index, Some(owner_lower(o)), Some(owner_upper(o)), entries),
            None => is_scan(self.links, None, None, entries),
        }
    }

    /// Whether `records` is page `page` of the listing for `owner`.
    pub open spec fn lists(self, owner: Option<Seq<char>>, page: int, limit: int, records: Seq<RecordView>) -> bool {
        exists|entries: Seq<(Seq<char>, Seq<char>)>| #[trigger]
            self.scanned(owner, entries) && records == kept(window(entries, page, limit))
    }

    /// The two tables agree: every record that reads from the primary table
    /// carries the identifier it is stored under, and every index entry is
    /// the copy of an owned record of the primary table, under that record's
    /// index key.
    pub open spec fn consistent(self) -> bool {
        &&& forall|id: Seq<char>| #[trigger]
            self.links.dom().contains(id) ==> (decoded(self.links[id]) matches Some(r) ==> r.id == id)
        &&& forall|key: Seq<char>| #[trigger]
            self.index.dom().contains(key) ==> self.mirrors(key)
    }

    /// The index is complete as well: the tables are consistent, and every
    /// owned record that reads from the primary table has its copy in the
    /// index, under its index key.
    pub open spec fn fully_indexed(self) -> bool {
        &&& self.consistent()
        &&& forall|id: Seq<char>| #[trigger]
            self.links.dom().contains(id) ==> (decoded(self.links[id]) matches Some(r) && r.ref_id matches Some(
                owner,
            ) ==> self.index.contains_pair(index_key(owner, r.created_at), self.links[id]))
    }

    /// Whether the index has no entry yet under the index key of `r`. It
    /// has one where a record of the same owner was created in the same
    /// microsecond.
    pub open spec fn key_is_free(self, r: RecordView) -> bool {
        r.ref_id matches Some(owner) ==> !self.index.dom().contains(index_key(owner, r.created_at))
    }

    /// Whether the index entry under `key` is the copy of an owned record of
    /// the primary table whose index key is `key`.
    pub open spec fn mirrors(self, key: Seq<char>) -> bool {
        exists|id: Seq<char>| #[trigger]
            self.links.dom().contains(id) && self.links[id] == self.index[key] && self.indexed_at(id, key)
    }

    /// Whether the record under `id` reads, has an owner, and has `key` as
    /// its index key.
    pub open spec fn indexed_at(self, id: Seq<char>, key: Seq<char>) -> bool {
        decoded(self.links[id]) matches Some(r) && r.ref_id matches Some(owner) && index_key(owner, r.created_at)
            == key
    }
}

/// The store with nothing in it.
pub open spec fn empty_store() -> StoreView {
    StoreView { links: Map::empty(), index: Map::empty() }
}

/// Uniqueness: once a record is created, creating any record with the same
/// identifier is a conflict, whatever else the second record holds.
pub proof fn lemma_identifier_stays_taken(store: StoreView, r: RecordView, after: StoreView, again: RecordView)
    requires
        store.created(r) == Ok::<StoreView, StoreError>(after),
        again.id == r.id,
    ensures
        after.created(again) == Err::<StoreView, StoreError>(StoreError::Conflict),
{
}

/// An identifier stays taken while other records come and go: creating any
/// record, and deleting a record under another identifier, leave it taken.
pub proof fn lemma_taken_until_deleted(store: StoreView, id: Seq<char>, r: RecordView, other: Seq<char>)
    requires
        store.taken(id),
    ensures
        store.with_record(r).taken(id),
        other != id ==> store.without_record(other, r).taken(id),
{
}

/// Round trip: a record that was created is the record that a lookup of its
/// identifier finds, equal in every field.
pub proof fn lemma_created_is_found(store: StoreView, r: RecordView, after: StoreView)
    requires
        store.created(r) == Ok::<StoreView, StoreError>(after),
    ensures
        after.record(r.id) == Some(r),
{
    lemma_decode_encoded(r);
}

/// Deleting twice: after a record was deleted, deleting under the same
/// identifier finds nothing, whoever asks.
pub proof fn lemma_deleted_is_gone(
    store: StoreView,
    id: Seq<char>,
    requester: Option<Seq<char>>,
    after: StoreView,
    again: Option<Seq<char>>,
)
    requires
        store.deleted(id, requester) == Ok::<StoreView, StoreError>(after),
    ensures
        after.record(id) is None,
        after.deleted(id, again) == Err::<StoreView, StoreError>(StoreError::NotFound),
{
}

/// Ownership: a record that exists is deleted for a caller who makes no
/// claim and for one who claims to be its owner; for any other claim, and for
/// any claim on a record without an owner, the deletion is forbidden.
pub proof fn lemma_only_the_owner_deletes(store: StoreView, id: Seq<char>, r: RecordView, requester: Option<Seq<char>>)
    requires
        store.record(id) == Some(r),
    ensures
        store.deleted(id, None) is Ok,
        r.ref_id matches Some(owner) ==> store.deleted(id, Some(owner)) is Ok,
        requester matches Some(claimed) && r.ref_id != Some(claimed) ==> store.deleted(id, requester) == Err::<
            StoreView,
            StoreError,
        >(StoreError::Forbidden),
        requester is Some && r.ref_id is None ==> store.deleted(id, requester) == Err::<StoreView, StoreError>(
            StoreError::Forbidden,
        ),
{
}

/// The empty store is consistent.
pub proof fn lemma_empty_is_consistent()
    ensures
        empty_store().consistent(),
{
}

/// Creating a record keeps the tables consistent.
pub proof fn lemma_created_stays_consistent(store: StoreView, r: RecordView, after: StoreView)
    requires
        store.consistent(),
        store.created(r) == Ok::<StoreView, StoreError>(after),
    ensures
        after.consistent(),
{
    lemma_decode_encoded(r);
    assert forall|id: Seq<char>| #[trigger] after.links.dom().contains(id) implies (decoded(after.links[id]) matches Some(
        x,
    ) ==> x.id == id) by {
        if id != r.id {
            assert(store.links.dom().contains(id));
        }
    }
    assert forall|key: Seq<char>| #[trigger] after.index.dom().contains(key) implies after.mirrors(key) by {
        if r.ref_id matches Some(owner) && key == index_key(owner, r.created_at) {
            assert(after.links.dom().contains(r.id) && after.links[r.id] == after.index[key] && after.indexed_at(
                r.id,
                key,
            ));
        } else {
            assert(store.index.dom().contains(key));
            assert(store.mirrors(key));
            let id = choose|id: Seq<char>| #[trigger]
                store.links.dom().contains(id) && store.links[id] == store.index[key] && store.indexed_at(id, key);
            assert(id != r.id);
            assert(after.links.dom().contains(id) && after.links[id] == after.index[key] && after.indexed_at(
                id,
                key,
            ));
        }
    }
}

/// Deleting a record keeps the tables consistent.
pub proof fn lemma_deleted_stays_consistent(store: StoreView, id: Seq<char>, requester: Option<Seq<char>>, after: StoreView)
    requires
        store.consistent(),
        store.deleted(id, requester) == Ok::<StoreView, StoreError>(after),
    ensures
        after.consistent(),
{
    let r = store.record(id)->0;
    assert(store.links.dom().contains(id));
    assert(r.id == id);
    assert forall|other: Seq<char>| #[trigger] after.links.dom().contains(other) implies (decoded(
        after.links[other],
    ) matches Some(x) ==> x.id == other) by {
        assert(store.links.dom().contains(other));
    }
    assert forall|key: Seq<char>| #[trigger] after.index.dom().contains(key) implies after.mirrors(key) by {
        assert(store.index.dom().contains(key));
        assert(store.mirrors(key));
        let other = choose|other: Seq<char>| #[trigger]
            store.links.dom().contains(other) && store.links[other] == store.index[key] && store.indexed_at(
                other,
                key,
            );
        assert(other != id);
        assert(after.links.dom().contains(other) && after.links[other] == after.index[key] && after.indexed_at(
            other,
            key,
        ));
    }
}

/// Creating a record whose index key is free keeps the index complete.
pub proof fn lemma_created_stays_indexed(store: StoreView, r: RecordView, after: StoreView)
    requires
        store.fully_indexed(),
        store.key_is_free(r),
        store.created(r) == Ok::<StoreView, StoreError>(after),
    ensures
        after.fully_indexed(),
{
    lemma_created_stays_consistent(store, r, after);
    lemma_decode_encoded(r);
    assert forall|id: Seq<char>| #[trigger] after.links.dom().contains(id) implies (decoded(after.links[id]) matches Some(
        x,
    ) && x.ref_id matches Some(owner) ==> after.index.contains_pair(
        index_key(owner, x.created_at),
        after.links[id],
    )) by {
        if id != r.id {
            assert(store.links.dom().contains(id));
        }
    }
}

/// Deleting a record keeps the index complete.
pub proof fn lemma_deleted_stays_indexed(store: StoreView, id: Seq<char>, requester: Option<Seq<char>>, after: StoreView)
    requires
        store.fully_indexed(),
        store.deleted(id, requester) == Ok::<StoreView, StoreError>(after),
    ensures
        after.fully_indexed(),
{
    lemma_deleted_stays_consistent(store, id, requester, after);
    assert(store.links.dom().contains(id));
    assert forall|other: Seq<char>| #[trigger] after.links.dom().contains(other) implies (decoded(
        after.links[other],
    ) matches Some(x) && x.ref_id matches Some(owner) ==> after.index.contains_pair(
        index_key(owner, x.created_at),
        after.links[other],
    )) by {
        assert(store.links.dom().contains(other));
    }
}

/// Every record that reads from an entry of a run is among the records that
/// the run holds.
pub proof fn lemma_kept_has(entries: Seq<(Seq<char>, Seq<char>)>, i: int)
    requires
        0 <= i < entries.len(),
        decoded(entries[i].1) is Some,
    ensures
        kept(entries).contains(decoded(entries[i].1)->0),
    decreases entries.len(),
{
    let before = kept(entries.drop_last());
    if i < entries.len() - 1 {
        lemma_kept_has(entries.drop_last(), i);
        let r = decoded(entries[i].1)->0;
        let at = choose|at: int| 0 <= at < before.len() && before[at] == r;
        if decoded(entries.last().1) is Some {
            assert(kept(entries)[at] == r);
        }
    } else {
        assert(kept(entries)[before.len() as int] == decoded(entries[i].1)->0);
    }
}

/// Every record that a run holds reads from one of its entries.
pub proof fn lemma_kept_from(entries: Seq<(Seq<char>, Seq<char>)>, r: RecordView)
    requires
        kept(entries).contains(r),
    ensures
        exists|i: int| 0 <= i < entries.len() && decoded((#[trigger] entries[i]).1) == Some(r),
    decreases entries.len(),
{
    if entries.len() > 0 {
        let before = kept(entries.drop_last());
        let at = choose|at: int| 0 <= at < kept(entries).len() && kept(entries)[at] == r;
        if at < before.len() {
            assert(before[at] == r);
            lemma_kept_from(entries.drop_last(), r);
            let i = choose|i: int|
                0 <= i < entries.drop_last().len() && decoded((#[trigger] entries.drop_last()[i]).1) == Some(r);
            assert(entries[i] == entries.drop_last()[i]);
        } else {
            assert(decoded(entries[entries.len() - 1].1) == Some(r));
        }
    }
}

/// Entry `i` of a scan is on page `i / limit + 1`.
pub proof fn lemma_window_has(entries: Seq<(Seq<char>, Seq<char>)>, i: int, limit: int) -> (page: int)
    requires
        0 <= i < entries.len(),
        limit >= 1,
    ensures
        page == i / limit + 1,
        page >= 1,
        exists|at: int| 0 <= at < window(entries, page, limit).len() && #[trigger] window(entries, page, limit)[at] == entries[i],
{
    let page = i / limit + 1;
    assert((page - 1) * limit <= i < (page - 1) * limit + limit && page >= 1) by (nonlinear_arith)
        requires
            page == i / limit + 1,
            limit >= 1,
            i >= 0,
    ;
    let shown = window(entries, page, limit);
    let at = i - (page - 1) * limit;
    assert(shown[at] == entries[i]);
    page
}

/// Every entry of a page is an entry of the scan.
pub proof fn lemma_window_from(entries: Seq<(Seq<char>, Seq<char>)>, page: int, limit: int, at: int) -> (i: int)
    requires
        page >= 1,
        limit >= 0,
        0 <= at < window(entries, page, limit).len(),
    ensures
        0 <= i < entries.len(),
        entries[i] == window(entries, page, limit)[at],
{
    assert((page - 1) * limit >= 0) by (nonlinear_arith)
        requires
            page >= 1,
            limit >= 0,
    ;
    let start = if (page - 1) * limit < entries.len() { (page - 1) * limit } else { entries.len() as int };
    start + at
}

/// Index consistency, after a create: the listing for the owner of a record
/// that was created includes it. The record's entry is in the owner's scan,
/// and it is on the page that the entry's position falls on.
pub proof fn lemma_created_is_listed(
    store: StoreView,
    r: RecordView,
    after: StoreView,
    entries: Seq<(Seq<char>, Seq<char>)>,
    limit: int,
) -> (page: int)
    requires
        store.created(r) == Ok::<StoreView, StoreError>(after),
        r.ref_id is Some,
        after.scanned(r.ref_id, entries),
        limit >= 1,
    ensures
        page >= 1,
        kept(window(entries, page, limit)).contains(r),
{
    let owner = r.ref_id->0;
    let key = index_key(owner, r.created_at);
    lemma_index_key_within_owner(owner, r.created_at);
    lemma_decode_encoded(r);
    assert(after.index.dom().contains(key));
    let i = choose|i: int| 0 <= i < entries.len() && (#[trigger] entries[i]).0 == key;
    assert(after.index.contains_pair(entries[i].0, entries[i].1));
    let page = lemma_window_has(entries, i, limit);
    let shown = window(entries, page, limit);
    let at = choose|at: int| 0 <= at < shown.len() && #[trigger] shown[at] == entries[i];
    lemma_kept_has(shown, at);
    page
}

/// A listing without an owner includes every record that was created, on
/// the page that its entry's position falls on.
pub proof fn lemma_created_is_listed_among_all(
    store: StoreView,
    r: RecordView,
    after: StoreView,
    entries: Seq<(Seq<char>, Seq<char>)>,
    limit: int,
) -> (page: int)
    requires
        store.created(r) == Ok::<StoreView, StoreError>(after),
        after.scanned(None, entries),
        limit >= 1,
    ensures
        page >= 1,
        kept(window(entries, page, limit)).contains(r),
{
    lemma_decode_encoded(r);
    assert(after.links.dom().contains(r.id));
    let i = choose|i: int| 0 <= i < entries.len() && (#[trigger] entries[i]).0 == r.id;
    assert(after.links.contains_pair(entries[i].0, entries[i].1));
    let page = lemma_window_has(entries, i, limit);
    let shown = window(entries, page, limit);
    let at = choose|at: int| 0 <= at < shown.len() && #[trigger] shown[at] == entries[i];
    lemma_kept_has(shown, at);
    page
}

/// Index consistency, after a delete: in a consistent store, no page of any
/// listing, for any owner or for none, shows a record with the identifier
/// that was deleted.
pub proof fn lemma_deleted_is_not_listed(
    store: StoreView,
    id: Seq<char>,
    requester: Option<Seq<char>>,
    after: StoreView,
    owner: Option<Seq<char>>,
    entries: Seq<(Seq<char>, Seq<char>)>,
    page: int,
    limit: int,
)
    requires
        store.consistent(),
        store.deleted(id, requester) == Ok::<StoreView, StoreError>(after),
        after.scanned(owner, entries),
        page >= 1,
        limit >= 0,
    ensures
        forall|r: RecordView| kept(window(entries, page, limit)).contains(r) ==> r.id != id,
{
    lemma_deleted_stays_consistent(store, id, requester, after);
    let shown = window(entries, page, limit);
    assert forall|r: RecordView| kept(shown).contains(r) implies r.id != id by {
        lemma_kept_from(shown, r);
        let at = choose|at: int| 0 <= at < shown.len() && decoded((#[trigger] shown[at]).1) == Some(r);
        let i = lemma_window_from(entries, page, limit, at);
        match owner {
            None => {
                assert(after.links.contains_pair(entries[i].0, entries[i].1));
            },
            Some(o) => {
                assert(after.index.contains_pair(entries[i].0, entries[i].1));
                assert(after.mirrors(entries[i].0));
            },
        }
    }
}

/// Scope: in a consistent store, every record on any page of an owner's
/// listing is a record of that owner, as long as neither the owner's name nor
/// the name of the record's owner holds a colon.
pub proof fn lemma_listing_is_scoped(
    store: StoreView,
    owner: Seq<char>,
    entries: Seq<(Seq<char>, Seq<char>)>,
    page: int,
    limit: int,
    r: RecordView,
)
    requires
        store.consistent(),
        store.scanned(Some(owner), entries),
        page >= 1,
        limit >= 0,
        kept(window(entries, page, limit)).contains(r),
        colon_free(owner),
        r.ref_id matches Some(other) ==> colon_free(other),
    ensures
        r.ref_id == Some(owner),
{
    let shown = window(entries, page, limit);
    lemma_kept_from(shown, r);
    let at = choose|at: int| 0 <= at < shown.len() && decoded((#[trigger] shown[at]).1) == Some(r);
    let i = lemma_window_from(entries, page, limit, at);
    assert(store.index.contains_pair(entries[i].0, entries[i].1));
    assert(store.mirrors(entries[i].0));
    lemma_within_owner_is_owner(owner, r.ref_id->0, r.created_at);
}

/// Ordering: in the scan of one listing, a record of the owner comes before
/// every record of the owner that was created later, for creation times that
/// are not negative and have the same count of decimal digits.
pub proof fn lemma_listed_oldest_first(
    store: StoreView,
    owner: Seq<char>,
    entries: Seq<(Seq<char>, Seq<char>)>,
    i: int,
    j: int,
    first: i64,
    second: i64,
)
    requires
        store.scanned(Some(owner), entries),
        0 <= i < entries.len(),
        0 <= j < entries.len(),
        entries[i].0 == index_key(owner, first),
        entries[j].0 == index_key(owner, second),
        0 <= first < second,
        crate::decimal::decimal(first as int).len() == crate::decimal::decimal(second as int).len(),
    ensures
        i < j,
{
    crate::keys::lemma_index_key_ordered(owner, first, second);
    lemma_key_lt_irreflexive(entries[i].0);
    lemma_key_lt_asymmetric(entries[i].0, entries[j].0);
}

/// A table has one scan between two bounds.
pub proof fn lemma_scan_is_unique(
    table: Map<Seq<char>, Seq<char>>,
    lo: Option<Seq<char>>,
    hi: Option<Seq<char>>,
    a: Seq<(Seq<char>, Seq<char>)>,
    b: Seq<(Seq<char>, Seq<char>)>,
)
    requires
        is_scan(table, lo, hi, a),
        is_scan(table, lo, hi, b),
    ensures
        a == b,
{
    lemma_scan_agrees(table, lo, hi, a, b, a.len() as int);
    lemma_scan_agrees(table, lo, hi, b, a, b.len() as int);
    lemma_scan_no_longer(table, lo, hi, a, b);
    lemma_scan_no_longer(table, lo, hi, b, a);
    assert(a =~= b);
}

/// Two scans of a table between the same bounds agree on their first `n`
/// entries, as far as both have them.
proof fn lemma_scan_agrees(
    table: Map<Seq<char>, Seq<char>>,
    lo: Option<Seq<char>>,
    hi: Option<Seq<char>>,
    a: Seq<(Seq<char>, Seq<char>)>,
    b: Seq<(Seq<char>, Seq<char>)>,
    n: int,
)
    requires
        is_scan(table, lo, hi, a),
        is_scan(table, lo, hi, b),
        0 <= n,
    ensures
        forall|k: int| 0 <= k < n && k < a.len() && k < b.len() ==> a[k] == b[k],
    decreases n,
{
    if n > 0 {
        lemma_scan_agrees(table, lo, hi, a, b, n - 1);
        let k = n - 1;
        if k < a.len() && k < b.len() {
            lemma_key_at(table, lo, hi, a, b, k);
            lemma_key_at(table, lo, hi, b, a, k);
            crate::keys::lemma_key_lt_total(a[k].0, b[k].0);
            lemma_key_lt_asymmetric(a[k].0, b[k].0);
            assert(a[k].0 == b[k].0);
            assert(table.contains_pair(a[k].0, a[k].1));
            assert(table.contains_pair(b[k].0, b[k].1));
        }
    }
}

/// Where two scans agree before position `k`, the key of the first at `k` is
/// not smaller than the key of the second at `k`.
proof fn lemma_key_at(
    table: Map<Seq<char>, Seq<char>>,
    lo: Option<Seq<char>>,
    hi: Option<Seq<char>>,
    a: Seq<(Seq<char>, Seq<char>)>,
    b: Seq<(Seq<char>, Seq<char>)>,
    k: int,
)
    requires
        is_scan(table, lo, hi, a),
        is_scan(table, lo, hi, b),
        0 <= k < a.len(),
        k < b.len(),
        forall|m: int| 0 <= m < k ==> a[m] == b[m],
    ensures
        !key_lt(a[k].0, b[k].0),
{
    if key_lt(a[k].0, b[k].0) {
        let key = a[k].0;
        assert(table.contains_pair(a[k].0, a[k].1));
        assert(table.dom().contains(key) && key_within(key, lo, hi));
        let j = choose|j: int| 0 <= j < b.len() && (#[trigger] b[j]).0 == key;
        lemma_key_lt_irreflexive(key);
        if j < k {
            assert(a[j] == b[j]);
            assert(key_lt(a[j].0, a[k].0));
        } else if j > k {
            assert(key_lt(b[k].0, b[j].0));
            lemma_key_lt_asymmetric(a[k].0, b[k].0);
        }
    }
}

/// Of two scans that agree as far as the shorter goes, the other is no longer.
proof fn lemma_scan_no_longer(
    table: Map<Seq<char>, Seq<char>>,
    lo: Option<Seq<char>>,
    hi: Option<Seq<char>>,
    a: Seq<(Seq<char>, Seq<char>)>,
    b: Seq<(Seq<char>, Seq<char>)>,
)
    requires
        is_scan(table, lo, hi, a),
        is_scan(table, lo, hi, b),
        forall|k: int| 0 <= k < a.len() && k < b.len() ==> a[k] == b[k],
    ensures
        b.len() <= a.len(),
{
    if a.len() < b.len() {
        let extra = b[a.len() as int];
        let key = extra.0;
        assert(table.contains_pair(extra.0, extra.1));
        assert(table.dom().contains(key) && key_within(key, lo, hi));
        let j = choose|j: int| 0 <= j < a.len() && (#[trigger] a[j]).0 == key;
        assert(a[j] == b[j]);
        assert(key_lt(b[j].0, b[a.len() as int].0));
        lemma_key_lt_irreflexive(key);
    }
}

/// A listing is determined: the store, the owner, the page and the page size
/// fix the records on the page.
pub proof fn lemma_listing_is_unique(
    store: StoreView,
    owner: Option<Seq<char>>,
    page: int,
    limit: int,
    x: Seq<RecordView>,
    y: Seq<RecordView>,
)
    requires
        store.lists(owner, page, limit, x),
        store.lists(owner, page, limit, y),
    ensures
        x == y,
{
    let a = choose|entries: Seq<(Seq<char>, Seq<char>)>| #[trigger]
        store.scanned(owner, entries) && x == kept(window(entries, page, limit));
    let b = choose|entries: Seq<(Seq<char>, Seq<char>)>| #[trigger]
        store.scanned(owner, entries) && y == kept(window(entries, page, limit));
    match owner {
        Some(o) => {
            lemma_scan_is_unique(store.index, Some(owner_lower(o)), Some(owner_upper(o)), a, b);
        },
        None => {
            lemma_scan_is_unique(store.links, None, None, a, b);
        },
    }
}

/// A page holds at most as many records as the page size.
pub proof fn lemma_page_is_bounded(entries: Seq<(Seq<char>, Seq<char>)>, page: int, limit: int)
    requires
        page >= 1,
        limit >= 0,
    ensures
        kept(window(entries, page, limit)).len() <= limit,
{
    assert((page - 1) * limit >= 0) by (nonlinear_arith)
        requires
            page >= 1,
            limit >= 0,
    ;
    lemma_kept_is_bounded(window(entries, page, limit));
}

/// A run holds at most as many records as it has entries.
pub proof fn lemma_kept_is_bounded(entries: Seq<(Seq<char>, Seq<char>)>)
    ensures
        kept(entries).len() <= entries.len(),
    decreases entries.len(),
{
    if entries.len() > 0 {
        lemma_kept_is_bounded(entries.drop_last());
    }
}

} // verus!
