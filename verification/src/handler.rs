//! The service: the four things a caller can ask for, each turned into calls
//! of the store and answered with one of a fixed set of replies.
//!
//! Nothing here knows of a transport. The replies are plain values; what
//! carries them to the caller turns each into a status line and a body.

use vstd::prelude::*;
use vstd::string::StringExecFns;
use crate::database::{stamped, views, AppState};
use crate::ident::{generate, is_generated_id};
use crate::model::{CreateRequest, CreateResponse, DeleteParams, ListParams, RecordView, UrlRecord};
use crate::store::{may_delete, StoreError, StoreView};
use crate::text::{opt_view, push_char};

verus! {

/// The page size where the caller names none.
pub const DEFAULT_LIMIT: usize = 10;

/// The largest page size.
pub const MAX_LIMIT: usize = 100;

/// What the service answers.
#[derive(Debug)]
pub enum Reply {
    /// A link was made: status 201, with what was made.
    Created(CreateResponse),
    /// The link exists: status 307, a temporary redirect to the long URL.
    Redirect(String),
    /// One page of a listing: status 200. `total_fetched` is the number of
    /// records on this page, not a total over all pages.
    Page { page: usize, limit: usize, total_fetched: usize, data: Vec<UrlRecord> },
    /// The link was deleted: status 200, with its identifier.
    Deleted(String),
    /// The identifier is taken: status 409.
    Conflict,
    /// There is no such link: status 404.
    NotFound,
    /// The caller is not the owner of the link: status 403.
    Forbidden,
    /// The storage engine failed: status 500, with the engine's error.
    Failed(redb::Error),
}

/// The status code of each reply.
pub open spec fn status_of(reply: Reply) -> u16 {
    match reply {
        Reply::Created(_) => 201,
        Reply::Redirect(_) => 307,
        Reply::Page { .. } => 200,
        Reply::Deleted(_) => 200,
        Reply::Conflict => 409,
        Reply::NotFound => 404,
        Reply::Forbidden => 403,
        Reply::Failed(_) => 500,
    }
}

impl Reply {
    /// The status code of the reply.
    pub fn status(&self) -> (code: u16)
        ensures
            code == status_of(*self),
    {
        match self {
            Reply::Created(_) => 201,
            Reply::Redirect(_) => 307,
            Reply::Page { .. } => 200,
            Reply::Deleted(_) => 200,
            Reply::Conflict => 409,
            Reply::NotFound => 404,
            Reply::Forbidden => 403,
            Reply::Failed(_) => 500,
        }
    }
}

/// The reply that stands for a refusal of the store.
pub fn refusal(error: StoreError) -> (reply: Reply)
    ensures
        match error {
            StoreError::Conflict => reply is Conflict,
            StoreError::NotFound => reply is NotFound,
            StoreError::Forbidden => reply is Forbidden,
            StoreError::Storage(e) => reply == Reply::Failed(e),
        },
{
    match error {
        StoreError::Conflict => Reply::Conflict,
        StoreError::NotFound => Reply::NotFound,
        StoreError::Forbidden => Reply::Forbidden,
        StoreError::Storage(e) => Reply::Failed(e),
    }
}

/// The identifier that a caller chose, if any: an empty one counts as none.
pub open spec fn chosen_id(custom_id: Option<Seq<char>>) -> Option<Seq<char>> {
    match custom_id {
        Some(id) => if id.len() > 0 { Some(id) } else { None },
        None => None,
    }
}

/// Whether `id` may be the identifier of a link made for a request with this
/// `custom_id`: the chosen identifier where there is one, else a generated one.
pub open spec fn is_id_for(custom_id: Option<Seq<char>>, id: Seq<char>) -> bool {
    match chosen_id(custom_id) {
        Some(chosen) => id == chosen,
        None => is_generated_id(id),
    }
}

/// The short URL of a link: the service's domain, a slash, the identifier.
pub open spec fn short_url_of(domain: Seq<char>, id: Seq<char>) -> Seq<char> {
    domain + seq!['/'] + id
}

/// The page wanted: the one named, 1 where none or page 0 is named.
pub open spec fn page_of(page: Option<usize>) -> usize {
    match page {
        Some(p) => if p >= 1 { p } else { 1 },
        None => 1,
    }
}

/// The page size wanted: the one named but at most [`MAX_LIMIT`], and
/// [`DEFAULT_LIMIT`] where none is named.
pub open spec fn limit_of(limit: Option<usize>) -> usize {
    match limit {
        Some(l) => if l <= MAX_LIMIT { l } else { MAX_LIMIT },
        None => DEFAULT_LIMIT,
    }
}

/// The identifier for a new link: the caller's, unless it is absent or
/// empty, in which case a random one is generated.
pub fn pick_id(custom_id: Option<String>) -> (id: String)
    ensures
        is_id_for(opt_view(custom_id), id@),
        id@.len() > 0,
{
    match custom_id {
        Some(id) => {
            if id.as_str().unicode_len() > 0 {
                id
            } else {
                generate()
            }
        },
        None => generate(),
    }
}

/// The short URL of the link `id` under `domain`.
pub fn make_short_url(domain: &str, id: &str) -> (url: String)
    ensures
        url@ == short_url_of(domain@, id@),
{
    let mut url = String::from_str(domain);
    push_char(&mut url, '/');
    url.append(id);
    url
}

/// The record that a request, an identifier and a time make under `domain`.
pub open spec fn requested(domain: Seq<char>, payload: CreateRequest, id: Seq<char>, created_at: i64) -> RecordView {
    RecordView {
        id,
        original_url: payload.url@,
        short_url: short_url_of(domain, id),
        ref_id: opt_view(payload.ref_id),
        created_at,
        clicks: 0,
    }
}

/// Makes a link for `payload`.
///
/// The identifier is the caller's, or a random one where the caller gave
/// none or an empty one. The short URL is built on `domain`, and the record
/// is stamped with the current time. Answers `Created` with the new link,
/// `Conflict` where the identifier is taken, which leaves the store as it
/// was, and `Failed` where the engine failed. A random identifier that turns
/// out taken is a conflict like any other: nothing is tried again.
pub fn create_short_url(state: &mut AppState, domain: &str, payload: CreateRequest) -> (reply: Reply)
    requires
        old(state).wf(),
    ensures
        final(state).wf(),
        match reply {
            Reply::Created(made) => {
                &&& is_id_for(opt_view(payload.custom_id), made.id@)
                &&& made.original_url@ == payload.url@
                &&& made.short_url@ == short_url_of(domain@, made.id@)
                &&& made.created_at >= 0
                &&& old(state)@.created(requested(domain@, payload, made.id@, made.created_at)) == Ok::<
                    StoreView,
                    StoreError,
                >(final(state)@)
            },
            Reply::Conflict => {
                &&& final(state)@ == old(state)@
                &&& exists|id: Seq<char>| is_id_for(opt_view(payload.custom_id), id) && #[trigger] old(state)@.taken(id)
            },
            Reply::Failed(_) => {
                ||| final(state)@ == old(state)@
                ||| exists|id: Seq<char>, created_at: i64|
                    {
                        &&& is_id_for(opt_view(payload.custom_id), id)
                        &&& old(state)@.created(#[trigger] requested(domain@, payload, id, created_at)) == Ok::<
                            StoreView,
                            StoreError,
                        >(final(state)@)
                    }
            },
            _ => false,
        },
        old(state)@.consistent() ==> final(state)@.consistent(),
{
    let CreateRequest { url, ref_id, custom_id } = payload;
    let id = pick_id(custom_id);
    let short_url = make_short_url(domain, id.as_str());
    let ghost id_view = id@;
    match state.create(id, url, short_url, ref_id) {
        Ok(record) => {
            assert(record@ == requested(domain@, payload, record.id@, record.created_at));
            let UrlRecord { id, original_url, short_url, ref_id: _, created_at, clicks: _ } = record;
            Reply::Created(CreateResponse { id, short_url, original_url, created_at })
        },
        Err(error) => {
            proof {
                match error {
                    StoreError::Conflict => {
                        assert(old(state)@.taken(id_view));
                    },
                    StoreError::Storage(_) => {
                        if state@ != old(state)@ {
                            let created_at = choose|created_at: i64|
                                state@ == old(state)@.with_record(
                                    #[trigger] stamped(
                                        id_view,
                                        payload.url@,
                                        short_url_of(domain@, id_view),
                                        opt_view(payload.ref_id),
                                        created_at,
                                    ),
                                );
                            assert(stamped(
                                id_view,
                                payload.url@,
                                short_url_of(domain@, id_view),
                                opt_view(payload.ref_id),
                                created_at,
                            ) == requested(domain@, payload, id_view, created_at));
                        }
                    },
                    _ => {},
                }
            }
            refusal(error)
        },
    }
}

/// Follows the link `id`: answers `Redirect` with its long URL, `NotFound`
/// where there is no such link or what is stored does not read as a record,
/// and `Failed` where the engine failed.
pub fn redirect_url(state: &AppState, id: &str) -> (reply: Reply)
    requires
        state.wf(),
    ensures
        match reply {
            Reply::Redirect(target) => state@.record(id@) matches Some(r) && target@ == r.original_url,
            Reply::NotFound => state@.record(id@) is None,
            Reply::Failed(_) => true,
            _ => false,
        },
{
    match state.get_by_id(id) {
        Ok(Some(record)) => Reply::Redirect(record.original_url),
        Ok(None) => Reply::NotFound,
        Err(error) => refusal(error),
    }
}

/// Lists one page of links: of the owner named in `params`, oldest first, or
/// of all links in the order of their identifiers where no owner is named.
/// The page number is at least 1 and the page size at most [`MAX_LIMIT`],
/// whatever `params` says. Answers `Page`, or `Failed` where the engine failed.
pub fn list_urls(state: &AppState, params: ListParams) -> (reply: Reply)
    requires
        state.wf(),
    ensures
        match reply {
            Reply::Page { page, limit, total_fetched, data } => {
                &&& page == page_of(params.page)
                &&& limit == limit_of(params.limit)
                &&& total_fetched == data@.len()
                &&& state@.lists(opt_view(params.ref_id), page as int, limit as int, views(data@))
            },
            Reply::Failed(_) => true,
            _ => false,
        },
{
    let page: usize = match params.page {
        Some(p) => if p >= 1 { p } else { 1 },
        None => 1,
    };
    let limit: usize = match params.limit {
        Some(l) => if l <= MAX_LIMIT { l } else { MAX_LIMIT },
        None => DEFAULT_LIMIT,
    };
    let listed = match &params.ref_id {
        Some(owner) => state.list(Some(owner.as_str()), page, limit),
        None => state.list(None, page, limit),
    };
    match listed {
        Ok(data) => Reply::Page { page, limit, total_fetched: data.len(), data },
        Err(error) => refusal(error),
    }
}

/// Deletes the link `id` for the caller that `params` describes. Answers
/// `Deleted` with the identifier, `NotFound` where there is no such link,
/// `Forbidden` where the caller claims an owner and the link is another
/// owner's or has none, and `Failed` where the engine failed. A caller who
/// claims no owner deletes any link, owned or not.
pub fn delete_short_url(state: &mut AppState, id: &str, params: DeleteParams) -> (reply: Reply)
    requires
        old(state).wf(),
    ensures
        final(state).wf(),
        match reply {
            Reply::Deleted(deleted_id) => {
                &&& deleted_id@ == id@
                &&& old(state)@.deleted(id@, opt_view(params.ref_id)) == Ok::<StoreView, StoreError>(final(state)@)
            },
            Reply::NotFound => old(state)@.record(id@) is None && final(state)@ == old(state)@,
            Reply::Forbidden => {
                &&& old(state)@.record(id@) matches Some(r)
                &&& !may_delete(r, opt_view(params.ref_id))
                &&& final(state)@ == old(state)@
            },
            Reply::Failed(_) => {
                ||| final(state)@ == old(state)@
                ||| old(state)@.deleted(id@, opt_view(params.ref_id)) == Ok::<StoreView, StoreError>(final(state)@)
            },
            _ => false,
        },
        old(state)@.consistent() ==> final(state)@.consistent(),
        old(state)@.fully_indexed() ==> final(state)@.fully_indexed(),
{
    let done = match &params.ref_id {
        Some(claimed) => state.delete(id, Some(claimed.as_str())),
        None => state.delete(id, None),
    };
    match done {
        Ok(()) => Reply::Deleted(String::from_str(id)),
        Err(error) => refusal(error),
    }
}

} // verus!
