//! What pins a fetched thing: where it comes from, which version of it, and
//! what proves the download is that one.

use crate::diag::Span;
use crate::text::{fill_pattern, owned};
use vstd::prelude::*;

verus! {

/// One pin, in the shape every pinned thing in the tree uses.
pub struct Evidence {
    /// The URL, which may carry `{version}` for the version to be put in.
    pub url: Option<String>,
    pub version: Option<String>,
    pub sha256: Option<String>,
    /// The directory inside the archive that matters, where it is not the
    /// root.
    pub path: Option<String>,
    /// Why it follows a moving ref, for a pin that does.
    pub unpinned: Option<String>,
    pub span: Span,
}

impl Evidence {
    /// A pin that says nothing yet, where the declaration held none.
    pub fn new(span: Span) -> (r: Evidence)
        ensures
            r.url is None,
            r.version is None,
            r.sha256 is None,
            r.path is None,
            r.unpinned is None,
            r.span == span,
    {
        Evidence { url: None, version: None, sha256: None, path: None, unpinned: None, span }
    }

    /// Whether it follows a moving ref, which is what makes every fetch of it
    /// a different tree.
    pub fn unpinned(&self) -> (r: bool)
        ensures
            r == self.unpinned is Some,
    {
        self.unpinned.is_some()
    }

    /// The URL with the version put where it says `{version}`.
    pub fn url_resolved(&self) -> (r: Option<String>)
        ensures
            r is Some <==> self.url is Some,
            r matches Some(u) ==> u@ == resolved_url(self.url->0@, self.version),
    {
        match &self.url {
            None => None,
            Some(url) => match &self.version {
                Some(version) => Some(fill_pattern(url.as_str(), "{version}", version.as_str())),
                None => Some(owned(url.as_str())),
            },
        }
    }
}

pub open spec fn resolved_url(url: Seq<char>, version: Option<String>) -> Seq<char> {
    match version {
        Some(v) => crate::text::fill_pattern_spec(url, "{version}"@, v@),
        None => url,
    }
}

/// What `copy module` left beside a module it copied: the collection it came
/// from.
pub struct Record {
    pub collection: String,
}

} // verus!
