//! The data of the service: the stored short-link record, and the plain values
//! that requests and responses carry.

use vstd::prelude::*;
use crate::text::opt_view;

verus! {

/// A short link as it is stored: the canonical entity of the service.
#[derive(Debug, Clone, PartialEq, Eq)]
pub struct UrlRecord {
    /// The identifier (slug) of the link, unique in the store; the primary key.
    pub id: String,
    /// The long URL that the link stands for, as the caller gave it.
    pub original_url: String,
    /// The complete short URL: the service's domain, a slash and the identifier.
    pub short_url: String,
    /// Who owns the link; `None` for a link without an owner.
    pub ref_id: Option<String>,
    /// When the link was created: microseconds since the Unix epoch, UTC.
    pub created_at: i64,
    /// How often the link was followed. Nothing counts yet: it stays 0.
    pub clicks: u64,
}

/// The mathematical value of a [`UrlRecord`].
#[verifier::ext_equal]
pub struct RecordView {
    pub id: Seq<char>,
    pub original_url: Seq<char>,
    pub short_url: Seq<char>,
    pub ref_id: Option<Seq<char>>,
    pub created_at: i64,
    pub clicks: u64,
}

impl View for UrlRecord {
    type V = RecordView;

    open spec fn view(&self) -> RecordView {
        RecordView {
            id: self.id@,
            original_url: self.original_url@,
            short_url: self.short_url@,
            ref_id: opt_view(self.ref_id),
            created_at: self.created_at,
            clicks: self.clicks,
        }
    }
}

/// What a caller sends to have a link made.
#[derive(Debug, Clone, PartialEq, Eq)]
pub struct CreateRequest {
    /// The long URL to shorten.
    pub url: String,
    /// The owner to record for the link, if any.
    pub ref_id: Option<String>,
    /// The identifier the caller wants; where it is absent or empty, a random
    /// one is made.
    pub custom_id: Option<String>,
}

/// What a caller gets back for a link that was made.
#[derive(Debug, Clone, PartialEq, Eq)]
pub struct CreateResponse {
    /// The identifier of the new link.
    pub id: String,
    /// The complete short URL.
    pub short_url: String,
    /// The long URL.
    pub original_url: String,
    /// When the link was created: microseconds since the Unix epoch, UTC.
    pub created_at: i64,
}

/// The mathematical value of a [`CreateResponse`].
#[verifier::ext_equal]
pub struct CreateResponseView {
    pub id: Seq<char>,
    pub short_url: Seq<char>,
    pub original_url: Seq<char>,
    pub created_at: i64,
}

impl View for CreateResponse {
    type V = CreateResponseView;

    open spec fn view(&self) -> CreateResponseView {
        CreateResponseView {
            id: self.id@,
            short_url: self.short_url@,
            original_url: self.original_url@,
            created_at: self.created_at,
        }
    }
}

/// The query of a listing: an optional owner and the page wanted.
#[derive(Debug, Clone, PartialEq, Eq)]
pub struct ListParams {
    /// The owner whose links are listed; without one, all links are.
    pub ref_id: Option<String>,
    /// The page, counted from 1; 1 where absent.
    pub page: Option<usize>,
    /// The size of a page; 10 where absent, and never more than 100.
    pub limit: Option<usize>,
}

/// The query of a deletion: the owner that the caller claims to be, if any.
#[derive(Debug, Clone, PartialEq, Eq)]
pub struct DeleteParams {
    /// The claimed owner. Without a claim the owner is not checked.
    pub ref_id: Option<String>,
}

} // verus!
