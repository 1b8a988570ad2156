//! Asset pins: the upstream payloads a module fetches, as data.

use crate::diag::Span;
use crate::model::options::env_word;
use crate::provenance::{resolved_url, Evidence};
use crate::text::cat;
use vstd::prelude::*;

verus! {

pub struct Asset {
    pub name: String,
    /// Where it comes from, which version of it, and what proves you got that
    /// one, in the shape every other pin in the tree uses.
    pub pin: Evidence,
    pub span: Span,
}

/// `nerd-fonts` becomes `ASSET_NERD_FONTS`.
pub open spec fn env_prefix_spec(name: Seq<char>) -> Seq<char> {
    "ASSET_"@ + env_word(name)
}

/// The env pairs an asset pinned as `pin` puts on its layer, in the order they
/// are written: the version, where it comes from, what it must hash to.
pub open spec fn asset_env_spec(name: Seq<char>, pin: Evidence) -> Seq<(Seq<char>, Seq<char>)> {
    let prefix = env_prefix_spec(name);
    let version: Seq<(Seq<char>, Seq<char>)> = match pin.version {
        Some(v) => seq![(prefix + "_VERSION"@, v@)],
        None => Seq::empty(),
    };
    let url: Seq<(Seq<char>, Seq<char>)> = match pin.url {
        Some(u) => seq![(prefix + "_URL"@, resolved_url(u@, pin.version))],
        None => Seq::empty(),
    };
    let sha: Seq<(Seq<char>, Seq<char>)> = match pin.sha256 {
        Some(s) => seq![(prefix + "_SHA256"@, s@)],
        None => Seq::empty(),
    };
    version + url + sha
}

pub open spec fn pair_views(pairs: Seq<(String, String)>) -> Seq<(Seq<char>, Seq<char>)> {
    pairs.map_values(|p: (String, String)| (p.0@, p.1@))
}

impl Asset {
    /// `ASSET_NERD_FONTS_VERSION`, and the same for `_URL` and `_SHA256`.
    pub fn env_prefix(&self) -> (r: String)
        ensures
            r@ == env_prefix_spec(self.name@),
    {
        let word = crate::model::options::env_word_exec(self.name.as_str());
        cat("ASSET_", word.as_str())
    }

    /// Every env pair this asset puts on its module's layer, in the order they
    /// are written: the pin, where it comes from, what it must hash to.
    pub fn env(&self) -> (r: Vec<(String, String)>)
        ensures
            pair_views(r@) == asset_env_spec(self.name@, self.pin),
    {
        let prefix = self.env_prefix();
        let mut out: Vec<(String, String)> = Vec::new();
        let ghost p = prefix@;
        if let Some(version) = &self.pin.version {
            out.push((cat(prefix.as_str(), "_VERSION"), version.clone()));
        }
        let ghost a = pair_views(out@);
        if let Some(url) = self.pin.url_resolved() {
            out.push((cat(prefix.as_str(), "_URL"), url));
        }
        let ghost b = pair_views(out@);
        if let Some(sha256) = &self.pin.sha256 {
            out.push((cat(prefix.as_str(), "_SHA256"), sha256.clone()));
        }
        proof {
            let spec = asset_env_spec(self.name@, self.pin);
            assert(pair_views(out@) =~= spec);
        }
        out
    }
}

} // verus!
