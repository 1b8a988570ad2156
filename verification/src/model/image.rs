//! The image files: one `.kdl` at the repository root per image.

use crate::diag::{bare, help_v, Issue, IssueV, Source, Span};
use crate::model::module::Module;
use crate::model::options::Value;
use crate::model::remote::{Collection, REMOTE_DIR};
use crate::provenance::Evidence;
use crate::text::{
    after_first, after_first_exec, cat, cat3, decimal, decimal_spec, is_digit, is_lower, join,
    join_spec, lemma_position, owned, position, same, views,
};
use vstd::prelude::*;

verus! {

/// The schema every file in the repository is written against.
pub const SCHEMA_VERSION: u32 = 1;

/// This release, which is what a repository pins in `tect-version`.
pub const TECT_VERSION: &'static str = "0.1.0";

/// The build target that carries no flavour: the ungated set, published
/// unsuffixed.
pub const NO_FLAVOUR: &'static str = "none";

pub open spec fn name_char(c: char) -> bool {
    is_lower(c) || is_digit(c) || c == '-'
}

/// Lowercase letters, digits and dashes, starting with a letter.
pub open spec fn is_name_spec(s: Seq<char>) -> bool {
    &&& s.len() > 0
    &&& is_lower(s[0])
    &&& forall|i: int| 1 <= i < s.len() ==> name_char(#[trigger] s[i])
}

/// Lowercase letters, digits and dashes, starting with a letter: image ids,
/// flavour names and capabilities.
pub fn is_name(name: &str) -> (r: bool)
    ensures
        r == is_name_spec(name@),
{
    let cs = crate::text::chars_of(name);
    if cs.len() == 0 || !crate::text::lower(cs[0]) {
        return false;
    }
    let mut i: usize = 1;
    while i < cs.len()
        invariant
            cs@ == name@,
            1 <= i <= cs@.len(),
            forall|j: int| 1 <= j < i ==> name_char(#[trigger] cs@[j]),
        decreases cs@.len() - i,
    {
        let c = cs[i];
        if !(crate::text::lower(c) || crate::text::digit(c) || c == '-') {
            assert(!name_char(cs@[i as int]));
            return false;
        }
        i = i + 1;
    }
    true
}

/// A build target: which image, and which flavour of it.
pub struct Target {
    pub image: String,
    /// A declared flavour, or `NO_FLAVOUR` for the ungated build.
    pub flavour: String,
}

/// What a target publishes as.
pub open spec fn published_spec(image: Seq<char>, flavour: Seq<char>) -> Seq<char> {
    if flavour == NO_FLAVOUR@ {
        image
    } else {
        image + "-"@ + flavour
    }
}

/// How a target is written where one is named.
pub open spec fn shown_spec(image: Seq<char>, flavour: Seq<char>) -> Seq<char> {
    if flavour == NO_FLAVOUR@ {
        image
    } else {
        image + "/"@ + flavour
    }
}

impl Target {
    pub fn new(image: &str, flavour: &str) -> (r: Target)
        ensures
            r.image@ == image@,
            r.flavour@ == flavour@,
    {
        Target { image: owned(image), flavour: owned(flavour) }
    }

    /// The same target, owned again.
    pub fn copy(&self) -> (r: Target)
        ensures
            r.image@ == self.image@,
            r.flavour@ == self.flavour@,
    {
        Target { image: self.image.clone(), flavour: self.flavour.clone() }
    }

    /// What this target publishes as: the image name alone for the ungated
    /// build, suffixed with the flavour otherwise.
    pub fn published(&self) -> (r: String)
        ensures
            r@ == published_spec(self.image@, self.flavour@),
    {
        if same(self.flavour.as_str(), NO_FLAVOUR) {
            self.image.clone()
        } else {
            cat3(self.image.as_str(), "-", self.flavour.as_str())
        }
    }

    /// `image`, or `image/flavour` for a flavoured build.
    pub fn to_string(&self) -> (r: String)
        ensures
            r@ == shown_spec(self.image@, self.flavour@),
    {
        if same(self.flavour.as_str(), NO_FLAVOUR) {
            self.image.clone()
        } else {
            cat3(self.image.as_str(), "/", self.flavour.as_str())
        }
    }
}

/// One image: what it calls itself, what it builds on, and everything it is
/// made of.
pub struct Image {
    /// The file this was declared in, so a diagnostic about anything under it
    /// points at the right one.
    pub src: Source,
    /// The machine name: published image, build target, cache tag, os-release
    /// DEFAULT_HOSTNAME, MOK key directory.
    pub id: String,
    pub name: String,
    pub pretty_name: String,
    pub url: String,
    pub issues_url: String,
    pub description: String,
    pub keywords: Vec<String>,
    pub logo_url: String,
    pub conforms: String,
    /// None only when the `base` node is missing or malformed, which is
    /// already an issue: nothing downstream invents a default for it.
    pub base: Option<Base>,
    pub flavours: Vec<Flavour>,
    pub entries: Vec<Entry>,
    /// Entries the base makes redundant.
    pub suppressed: Vec<Entry>,
    pub span: Span,
}

/// The base image, and what building on it may assume.
pub struct Base {
    /// The full image reference, emitted verbatim as the generated `FROM`.
    pub image: String,
    pub family: String,
    /// Capabilities the base satisfies that no module could implement
    /// portably: rechunking, initramfs generation, MAC policy.
    pub provides: Vec<Decl>,
    /// Binaries the base guarantees.
    pub provides_files: Vec<Decl>,
    /// Whether the base image publishes a cosign signature.
    pub signed: bool,
    pub span: Span,
}

/// A name the base declares, with the span to point at when something about it
/// is wrong.
pub struct Decl {
    pub name: String,
    pub span: Span,
}

pub struct Flavour {
    pub name: String,
    pub default: bool,
    pub pr_build: bool,
    pub span: Span,
}

/// One workflow the repository asks to be generated, named by its file stem
/// under `.github/workflows/`.
pub struct Workflow {
    pub name: String,
    pub span: Span,
}

/// One entry in the list: a module, and the decisions the image author makes
/// about it.
pub struct Entry {
    /// The collection this entry references, for a member listed under a
    /// `source` block.
    pub source: Option<String>,
    pub path: String,
    pub flavour: Option<String>,
    pub variant: Option<String>,
    /// Option name to the values set on it.
    pub options: Vec<(String, Vec<Value>, Span)>,
    /// The pin, for a module that lives outside this repository.
    pub remote: Option<Evidence>,
    pub span: Span,
    /// The manifest this entry names, loaded during resolution. None when it
    /// could not be read, which is already an issue.
    pub module: Option<Module>,
}

/// The names of the collections, in order.
pub open spec fn collection_names(sources: Seq<Collection>) -> Seq<Seq<char>> {
    sources.map_values(|c: Collection| c.name@)
}

/// The pin an entry is fetched by.
pub open spec fn entry_pin(entry: Entry, sources: Seq<Collection>) -> Option<Evidence> {
    match entry.remote {
        Some(pin) => Some(pin),
        None => match entry.source {
            Some(name) => match position(collection_names(sources), name@) {
                Some(i) => match sources[i].at {
                    crate::model::remote::At::Archive(pin) => Some(pin),
                    crate::model::remote::At::Dir(_) => None,
                },
                None => None,
            },
            None => None,
        },
    }
}

/// What a seed calls the module an entry names.
pub open spec fn qualified_spec(entry: Entry, publishes_as: Seq<char>) -> Option<Seq<char>> {
    if entry.remote is Some {
        None
    } else if entry.source is Some {
        Some(entry.path@)
    } else {
        let owner = match entry.module {
            Some(m) => match m.imported {
                Some(record) => record.collection@,
                None => publishes_as,
            },
            None => publishes_as,
        };
        Some(owner + "/"@ + entry.path@)
    }
}

impl Entry {
    /// Where the module's directory is, relative to `modules/`.
    pub fn dir(&self) -> (r: String)
        ensures
            r@ == (if self.source is Some || self.remote is Some {
                REMOTE_DIR@ + "/"@ + self.path@
            } else {
                self.path@
            }),
    {
        if self.source.is_some() || self.remote.is_some() {
            cat3(REMOTE_DIR, "/", self.path.as_str())
        } else {
            self.path.clone()
        }
    }

    /// The name inside its collection, or its whole local name.
    pub fn name(&self) -> (r: String)
        ensures
            r@ == (if self.source is Some {
                after_first(self.path@, '/')
            } else {
                self.path@
            }),
    {
        if self.source.is_some() {
            after_first_exec(self.path.as_str(), '/')
        } else {
            self.path.clone()
        }
    }

    /// The pin that fetches it, whether declared on the entry or its source.
    pub fn pin<'a>(&'a self, sources: &'a [Collection]) -> (r: Option<&'a Evidence>)
        ensures
            match r {
                Some(p) => entry_pin(*self, sources@) == Some(*p),
                None => entry_pin(*self, sources@) is None,
            },
    {
        match &self.remote {
            Some(pin) => Some(pin),
            None => match &self.source {
                Some(name) => {
                    let mut i: usize = 0;
                    while i < sources.len()
                        invariant
                            i <= sources@.len(),
                            self.remote is None,
                            self.source == Some(*name),
                            forall|j: int| 0 <= j < i ==> collection_names(sources@)[j] != name@,
                        decreases sources@.len() - i,
                    {
                        if same(sources[i].name.as_str(), name.as_str()) {
                            proof {
                                lemma_position(collection_names(sources@), name@, i as int);
                            }
                            return sources[i].pin();
                        }
                        i = i + 1;
                    }
                    proof {
                        lemma_position(collection_names(sources@), name@, i as int);
                    }
                    None
                },
                None => None,
            },
        }
    }

    /// What a seed calls this module: a reference or copy keeps its source
    /// collection, and one this repository owns takes the collection it
    /// publishes as.
    pub fn qualified(&self, publishes_as: &str) -> (r: Option<String>)
        ensures
            match r {
                Some(q) => qualified_spec(*self, publishes_as@) == Some(q@),
                None => qualified_spec(*self, publishes_as@) is None,
            },
    {
        if self.remote.is_some() {
            return None;
        }
        if self.source.is_some() {
            return Some(self.path.clone());
        }
        let owner: &str = match &self.module {
            Some(module) => match &module.imported {
                Some(record) => record.collection.as_str(),
                None => publishes_as,
            },
            None => publishes_as,
        };
        Some(cat3(owner, "/", self.path.as_str()))
    }
}

/// The image a repository publishes a seed of, and the collection it publishes
/// its own modules as, which is what every module in the seed is named by.
pub struct Seed {
    pub image: String,
    pub collection: String,
}

/// The repository's declarations: every image in it, and the handful of
/// decisions that are about the repository rather than about any image.
pub struct List {
    /// What repo.kdl calls the repository, shown as the name of a tree.
    pub name: String,
    /// The machine name `name` derives, which a tree reads as its root.
    pub id: String,
    /// Every image, ordered by the file it was declared in.
    pub images: Vec<Image>,
    /// The workflows repo.kdl asks for, which are the only ones written.
    pub workflows: Vec<Workflow>,
    /// The hour and minute the daily build runs, UTC.
    pub workflows_at: (u32, u32),
    /// Whether images publish only from the daily build rather than on pushes
    /// too, and the same for the vulnerability scan.
    pub publishes_scheduled: bool,
    pub scans_scheduled: bool,
    /// The module collections references and copies resolve against.
    pub sources: Vec<Collection>,
    /// Which image a build with nothing named builds, and which one a pull
    /// request builds.
    pub default_image_id: Option<String>,
    pub pr_image_id: Option<String>,
    /// The image this repository publishes a seed of, when it publishes one.
    pub seed: Option<Seed>,
    /// Whether a build stamps the generated manifest onto the image as an OCI label.
    pub manifest_label: bool,
    /// Whether a provenance fact that is missing or does not match is an error
    /// rather than a read-out.
    pub audit_enforce: bool,
    /// What repo.kdl declares, which is `SCHEMA_VERSION` or the load failed.
    pub schema_version: Option<u32>,
    /// Whether the node was there at all, so a malformed one is reported once.
    pub schema_version_seen: bool,
    /// repo.kdl, for a diagnostic about either of the two above.
    pub repo_src: Source,
    /// Every file read, in order, for the count line a failure ends with.
    pub files: Vec<String>,
}

pub open spec fn flavour_names(flavours: Seq<Flavour>) -> Seq<Seq<char>> {
    flavours.map_values(|f: Flavour| f.name@)
}

/// The first flavour marked by `pick`.
pub open spec fn first_marked(marks: Seq<bool>) -> Option<int> {
    if exists|i: int| 0 <= i < marks.len() && marks[i] {
        Some(choose|i: int| 0 <= i < marks.len() && marks[i] && forall|j: int| 0 <= j < i ==> !marks[j])
    } else {
        None
    }
}

proof fn lemma_first_marked(marks: Seq<bool>, i: int)
    requires
        0 <= i <= marks.len(),
        forall|j: int| 0 <= j < i ==> !marks[j],
        i < marks.len() ==> marks[i],
    ensures
        i < marks.len() ==> first_marked(marks) == Some(i),
        i == marks.len() ==> first_marked(marks) is None,
{
    if i < marks.len() {
        assert(0 <= i < marks.len() && marks[i] && forall|j: int| 0 <= j < i ==> !marks[j]);
        let c = choose|k: int| 0 <= k < marks.len() && marks[k] && forall|j: int| 0 <= j < k ==> !marks[j];
        if c < i {
            assert(!marks[c]);
        } else if i < c {
            assert(!marks[i]);
        }
    }
}

pub open spec fn default_marks(flavours: Seq<Flavour>) -> Seq<bool> {
    flavours.map_values(|f: Flavour| f.default)
}

pub open spec fn pr_marks(flavours: Seq<Flavour>) -> Seq<bool> {
    flavours.map_values(|f: Flavour| f.pr_build)
}

/// The name of the image's default flavour, where it marks one.
pub open spec fn default_flavour_spec(flavours: Seq<Flavour>) -> Option<Seq<char>> {
    match first_marked(default_marks(flavours)) {
        Some(i) => Some(flavours[i].name@),
        None => None,
    }
}

/// The flavour a pull request builds: the one marked for it, else the default.
pub open spec fn pr_flavour_spec(flavours: Seq<Flavour>) -> Option<Seq<char>> {
    match first_marked(pr_marks(flavours)) {
        Some(i) => Some(flavours[i].name@),
        None => default_flavour_spec(flavours),
    }
}

/// The default flavour is the first one marked default, and there is none
/// where no flavour is marked.
pub proof fn lemma_default_flavour_is_the_first_marked(flavours: Seq<Flavour>)
    ensures
        forall|d: int|
            0 <= d < flavours.len() && flavours[d].default && (forall|j: int| 0 <= j < d ==> !flavours[j].default)
                ==> default_flavour_spec(flavours) == Some(#[trigger] flavours[d].name@),
        (forall|k: int| 0 <= k < flavours.len() ==> !flavours[k].default) ==> default_flavour_spec(flavours) is None,
{
    let dm = default_marks(flavours);
    assert forall|d: int|
        0 <= d < flavours.len() && flavours[d].default && (forall|j: int| 0 <= j < d ==> !flavours[j].default)
            implies default_flavour_spec(flavours) == Some(#[trigger] flavours[d].name@) by {
        assert forall|j: int| 0 <= j < d implies !dm[j] by {}
        lemma_first_marked(dm, d);
    }
    if forall|k: int| 0 <= k < flavours.len() ==> !flavours[k].default {
        assert forall|j: int| 0 <= j < dm.len() implies !dm[j] by {}
        lemma_first_marked(dm, dm.len() as int);
    }
}

/// A pull request builds the first flavour marked for it; where none is,
/// it builds the image's default flavour, the first marked default, and the
/// ungated build only where neither is marked.
pub proof fn lemma_pr_flavour_falls_back_to_default(flavours: Seq<Flavour>)
    ensures
        forall|p: int|
            0 <= p < flavours.len() && flavours[p].pr_build && (forall|j: int| 0 <= j < p ==> !flavours[j].pr_build)
                ==> pr_flavour_spec(flavours) == Some(#[trigger] flavours[p].name@),
        forall|d: int|
            0 <= d < flavours.len() && (forall|k: int| 0 <= k < flavours.len() ==> !flavours[k].pr_build)
                && flavours[d].default && (forall|j: int| 0 <= j < d ==> !flavours[j].default)
                ==> pr_flavour_spec(flavours) == Some(#[trigger] flavours[d].name@),
        (forall|k: int| 0 <= k < flavours.len() ==> !flavours[k].pr_build && !flavours[k].default)
            ==> pr_flavour_spec(flavours) is None,
{
    let pm = pr_marks(flavours);
    let dm = default_marks(flavours);
    assert forall|p: int|
        0 <= p < flavours.len() && flavours[p].pr_build && (forall|j: int| 0 <= j < p ==> !flavours[j].pr_build)
            implies pr_flavour_spec(flavours) == Some(#[trigger] flavours[p].name@) by {
        assert forall|j: int| 0 <= j < p implies !pm[j] by {}
        lemma_first_marked(pm, p);
    }
    assert forall|d: int|
        0 <= d < flavours.len() && (forall|k: int| 0 <= k < flavours.len() ==> !flavours[k].pr_build)
            && flavours[d].default && (forall|j: int| 0 <= j < d ==> !flavours[j].default)
            implies pr_flavour_spec(flavours) == Some(#[trigger] flavours[d].name@) by {
        assert forall|j: int| 0 <= j < pm.len() implies !pm[j] by {}
        lemma_first_marked(pm, pm.len() as int);
        assert forall|j: int| 0 <= j < d implies !dm[j] by {}
        lemma_first_marked(dm, d);
    }
    if forall|k: int| 0 <= k < flavours.len() ==> !flavours[k].pr_build && !flavours[k].default {
        assert forall|j: int| 0 <= j < pm.len() implies !pm[j] by {}
        lemma_first_marked(pm, pm.len() as int);
        assert forall|j: int| 0 <= j < dm.len() implies !dm[j] by {}
        lemma_first_marked(dm, dm.len() as int);
    }
}

fn first_flavour(flavours: &Vec<Flavour>, pr: bool) -> (r: Option<&str>)
    ensures
        match r {
            Some(n) => (if pr { first_marked(pr_marks(flavours@)) } else { first_marked(default_marks(flavours@)) })
                matches Some(i) && n@ == flavours@[i].name@,
            None => (if pr { first_marked(pr_marks(flavours@)) } else { first_marked(default_marks(flavours@)) }) is None,
        },
{
    let ghost marks = if pr { pr_marks(flavours@) } else { default_marks(flavours@) };
    let mut i: usize = 0;
    while i < flavours.len()
        invariant
            i <= flavours@.len(),
            marks == (if pr { pr_marks(flavours@) } else { default_marks(flavours@) }),
            marks.len() == flavours@.len(),
            forall|j: int| 0 <= j < i ==> !marks[j],
        decreases flavours@.len() - i,
    {
        let hit = if pr { flavours[i].pr_build } else { flavours[i].default };
        if hit {
            proof {
                lemma_first_marked(marks, i as int);
            }
            return Some(flavours[i].name.as_str());
        }
        i = i + 1;
    }
    proof {
        lemma_first_marked(marks, i as int);
    }
    None
}

impl Image {
    /// The manifests this image's entries resolved to, in build order.
    pub fn modules(&self) -> (r: Vec<&Module>)
        ensures
            r@.map_values(|m: &Module| *m) == loaded_modules(self.entries@),
    {
        let mut out: Vec<&Module> = Vec::new();
        let mut i: usize = 0;
        while i < self.entries.len()
            invariant
                i <= self.entries@.len(),
                out@.map_values(|m: &Module| *m) == loaded_modules(self.entries@.take(i as int)),
            decreases self.entries@.len() - i,
        {
            assert(self.entries@.take(i as int + 1).drop_last() =~= self.entries@.take(i as int));
            let ghost before = out@;
            if let Some(m) = &self.entries[i].module {
                out.push(m);
                assert(out@.map_values(|m: &Module| *m) =~= before.map_values(|m: &Module| *m).push(*m));
            } else {
                assert(out@ == before);
            }
            i = i + 1;
        }
        assert(self.entries@.take(self.entries@.len() as int) =~= self.entries@);
        out
    }

    pub fn default_flavour(&self) -> (r: Option<&str>)
        ensures
            match r {
                Some(n) => default_flavour_spec(self.flavours@) == Some(n@),
                None => default_flavour_spec(self.flavours@) is None,
            },
    {
        first_flavour(&self.flavours, false)
    }

    /// Falls back to the default: a repository that has not thought about
    /// which flavour covers the most build surface still gets a PR build.
    pub fn pr_flavour(&self) -> (r: Option<&str>)
        ensures
            match r {
                Some(n) => pr_flavour_spec(self.flavours@) == Some(n@),
                None => pr_flavour_spec(self.flavours@) is None,
            },
    {
        match first_flavour(&self.flavours, true) {
            Some(n) => Some(n),
            None => self.default_flavour(),
        }
    }
}

/// The manifests a run of entries resolved to, in order.
pub open spec fn loaded_modules(entries: Seq<Entry>) -> Seq<Module>
    decreases entries.len(),
{
    if entries.len() == 0 {
        Seq::empty()
    } else {
        let rest = loaded_modules(entries.drop_last());
        match entries.last().module {
            Some(m) => rest.push(m),
            None => rest,
        }
    }
}

pub open spec fn image_ids(images: Seq<Image>) -> Seq<Seq<char>> {
    images.map_values(|i: Image| i.id@)
}

/// Which image a command given none answers about.
pub open spec fn default_image_index(list: List) -> Option<int> {
    match list.default_image_id {
        Some(id) => position(image_ids(list.images@), id@),
        None => if list.images@.len() == 1 {
            Some(0)
        } else {
            None
        },
    }
}

/// Which image a pull request builds.
pub open spec fn pr_image_index(list: List) -> Option<int> {
    match list.pr_image_id {
        Some(id) => position(image_ids(list.images@), id@),
        None => default_image_index(list),
    }
}

/// Every target of one image: its ungated set, then each flavour.
pub open spec fn image_targets(image: Image) -> Seq<(Seq<char>, Seq<char>)> {
    seq![(image.id@, NO_FLAVOUR@)] + image.flavours@.map_values(|f: Flavour| (image.id@, f.name@))
}

/// Every target of every image, image by image.
pub open spec fn targets_spec(images: Seq<Image>) -> Seq<(Seq<char>, Seq<char>)>
    decreases images.len(),
{
    if images.len() == 0 {
        Seq::empty()
    } else {
        targets_spec(images.drop_last()) + image_targets(images.last())
    }
}

pub open spec fn target_views(targets: Seq<Target>) -> Seq<(Seq<char>, Seq<char>)> {
    targets.map_values(|t: Target| (t.image@, t.flavour@))
}

pub open spec fn shown_all(targets: Seq<(Seq<char>, Seq<char>)>) -> Seq<Seq<char>> {
    targets.map_values(|t: (Seq<char>, Seq<char>)| shown_spec(t.0, t.1))
}

/// The message a name that is no target is refused with.
pub open spec fn unknown_target_message(name: Seq<char>, images: Seq<Image>) -> Seq<char> {
    "`"@ + name + "` is not a build target (have: "@ + join_spec(shown_all(targets_spec(images)), " "@)
        + ")"@
}

/// The issue raised where a command had to pick a default image and there is
/// none.
pub open spec fn no_default_issue(count: nat, first_id: Seq<char>, repo_file: Seq<char>) -> IssueV {
    help_v(
        bare(decimal_spec(count) + " images are declared and none is the default"@, repo_file),
        "the default image is what a command given no image answers about, and what a bare `tect build` builds; a repository with one image falls back to that one, and a repository with more says which: `default-image \""@
            + first_id + "\"` in "@ + crate::layout::REPO_FILE@,
    )
}

fn find_image<'a>(images: &'a Vec<Image>, id: &str) -> (r: Option<&'a Image>)
    ensures
        match r {
            Some(img) => position(image_ids(images@), id@) matches Some(i) && *img == images@[i],
            None => position(image_ids(images@), id@) is None,
        },
{
    let mut i: usize = 0;
    while i < images.len()
        invariant
            i <= images@.len(),
            forall|j: int| 0 <= j < i ==> image_ids(images@)[j] != id@,
        decreases images@.len() - i,
    {
        if same(images[i].id.as_str(), id) {
            proof {
                lemma_position(image_ids(images@), id@, i as int);
            }
            return Some(&images[i]);
        }
        i = i + 1;
    }
    proof {
        lemma_position(image_ids(images@), id@, i as int);
    }
    None
}

impl List {
    /// The image a command answers about when it is given no image, and the
    /// one a bare build builds.
    pub fn default_image(&self) -> (r: Option<&Image>)
        ensures
            match r {
                Some(img) => default_image_index(*self) matches Some(i) && *img == self.images@[i],
                None => default_image_index(*self) is None,
            },
    {
        match &self.default_image_id {
            Some(id) => find_image(&self.images, id.as_str()),
            None => if self.images.len() == 1 {
                Some(&self.images[0])
            } else {
                None
            },
        }
    }

    /// Why there is no default, for a command that had to pick one. Raised
    /// there rather than at load: a command given an image never needed one.
    pub fn no_default(&self) -> (r: Option<Issue>)
        ensures
            match r {
                Some(issue) => self.images@.len() > 1 && self.default_image_id is None && issue@
                    == no_default_issue(
                    self.images@.len() as nat,
                    self.images@[0].id@,
                    self.repo_src.name@,
                ),
                None => !(self.images@.len() > 1 && self.default_image_id is None),
            },
    {
        if self.images.len() <= 1 || self.default_image_id.is_some() {
            return None;
        }
        let count = decimal(self.images.len() as u64);
        let message = cat(count.as_str(), " images are declared and none is the default");
        let help = cat4_help(self.images[0].id.as_str());
        Some(Issue::new(message, &self.repo_src).help(help))
    }

    /// The image a pull request builds, which falls back to the default the
    /// way `pr-build` falls back to `default` within an image.
    pub fn pr_image(&self) -> (r: Option<&Image>)
        ensures
            match r {
                Some(img) => pr_image_index(*self) matches Some(i) && *img == self.images@[i],
                None => pr_image_index(*self) is None,
            },
    {
        match &self.pr_image_id {
            Some(id) => find_image(&self.images, id.as_str()),
            None => self.default_image(),
        }
    }

    /// Every target: for each image, the ungated set and then its flavours.
    pub fn targets(&self) -> (r: Vec<Target>)
        ensures
            target_views(r@) == targets_spec(self.images@),
    {
        let mut out: Vec<Target> = Vec::new();
        let mut i: usize = 0;
        while i < self.images.len()
            invariant
                i <= self.images@.len(),
                target_views(out@) == targets_spec(self.images@.take(i as int)),
            decreases self.images@.len() - i,
        {
            let image = &self.images[i];
            let ghost before = target_views(out@);
            assert(self.images@.take(i as int + 1).drop_last() =~= self.images@.take(i as int));
            out.push(Target::new(image.id.as_str(), NO_FLAVOUR));
            let mut k: usize = 0;
            while k < image.flavours.len()
                invariant
                    k <= image.flavours@.len(),
                    target_views(out@) == before + image_targets(*image).take(k as int + 1),
                decreases image.flavours@.len() - k,
            {
                let ghost prior = out@;
                out.push(Target::new(image.id.as_str(), image.flavours[k].name.as_str()));
                assert(target_views(out@) =~= target_views(prior).push((image.id@, image.flavours@[k as int].name@)));
                assert(image_targets(*image)[k as int + 1] == (image.id@, image.flavours@[k as int].name@));
                assert(image_targets(*image).take(k as int + 2) =~= image_targets(*image).take(k as int + 1).push(
                    (image.id@, image.flavours@[k as int].name@),
                ));
                assert(target_views(out@) =~= before + image_targets(*image).take(k as int + 2));
                k = k + 1;
            }
            assert(image_targets(*image).take(k as int + 1) =~= image_targets(*image));
            i = i + 1;
        }
        assert(self.images@.take(self.images@.len() as int) =~= self.images@);
        out
    }

    /// The one `name` names, refused naming what there is. Every caller that
    /// takes a `--target` asks this, so an unknown one is the same answer
    /// wherever it was typed.
    pub fn find_target(&self, name: &str) -> (r: Result<Target, String>)
        ensures
            match r {
                Ok(t) => position(shown_all(targets_spec(self.images@)), name@) matches Some(i)
                    && (t.image@, t.flavour@) == targets_spec(self.images@)[i],
                Err(msg) => position(shown_all(targets_spec(self.images@)), name@) is None
                    && msg@ == unknown_target_message(name@, self.images@),
            },
    {
        let known = self.targets();
        let ghost tv = targets_spec(self.images@);
        let shown = shown_targets(&known);
        let mut i: usize = 0;
        while i < shown.len()
            invariant
                target_views(known@) == tv,
                tv == targets_spec(self.images@),
                views(shown@) == shown_all(tv),
                shown@.len() == known@.len(),
                i <= shown@.len(),
                forall|j: int| 0 <= j < i ==> shown_all(tv)[j] != name@,
            decreases shown@.len() - i,
        {
            assert(views(shown@)[i as int] == shown@[i as int]@);
            if same(shown[i].as_str(), name) {
                proof {
                    lemma_position(shown_all(tv), name@, i as int);
                    assert(tv[i as int] == (known@[i as int].image@, known@[i as int].flavour@));
                }
                return Ok(known[i].copy());
            }
            i = i + 1;
        }
        proof {
            lemma_position(shown_all(tv), name@, i as int);
        }
        let have = join(&shown, " ");
        Err(crate::text::cat5("`", name, "` is not a build target (have: ", have.as_str(), ")"))
    }

    /// What a build with nothing named builds: the default image, at its
    /// default flavour, or its ungated set when it declares no flavours.
    pub fn default_target(&self) -> (r: Option<Target>)
        ensures
            match r {
                Some(t) => default_image_index(*self) matches Some(i) && t.image@ == self.images@[i].id@
                    && t.flavour@ == (match default_flavour_spec(self.images@[i].flavours@) {
                        Some(f) => f,
                        None => NO_FLAVOUR@,
                    }),
                None => default_image_index(*self) is None,
            },
    {
        match self.default_image() {
            Some(image) => {
                let flavour = match image.default_flavour() {
                    Some(f) => f,
                    None => NO_FLAVOUR,
                };
                Some(Target::new(image.id.as_str(), flavour))
            },
            None => None,
        }
    }

    /// The default image's ungated build, which is what the installer ISO and
    /// the disk builds lay down.
    pub fn ungated_target(&self) -> (r: Option<Target>)
        ensures
            match r {
                Some(t) => default_image_index(*self) matches Some(i) && t.image@ == self.images@[i].id@
                    && t.flavour@ == NO_FLAVOUR@,
                None => default_image_index(*self) is None,
            },
    {
        match self.default_image() {
            Some(image) => Some(Target::new(image.id.as_str(), NO_FLAVOUR)),
            None => None,
        }
    }

    /// The image name the registry layer cache is kept under.
    pub fn cache_image(&self) -> (r: Option<String>)
        ensures
            match r {
                Some(c) => default_image_index(*self) matches Some(i) && c@ == self.images@[i].id@
                    + "-cache"@,
                None => default_image_index(*self) is None,
            },
    {
        match self.default_image() {
            Some(image) => Some(cat(image.id.as_str(), "-cache")),
            None => None,
        }
    }

    /// The one target a pull request builds, for half the runner time.
    pub fn pr_target(&self) -> (r: Option<Target>)
        ensures
            match r {
                Some(t) => pr_image_index(*self) matches Some(i) && t.image@ == self.images@[i].id@
                    && t.flavour@ == (match pr_flavour_spec(self.images@[i].flavours@) {
                        Some(f) => f,
                        None => NO_FLAVOUR@,
                    }),
                None => pr_image_index(*self) is None,
            },
    {
        match self.pr_image() {
            Some(image) => {
                let flavour = match image.pr_flavour() {
                    Some(f) => f,
                    None => NO_FLAVOUR,
                };
                Some(Target::new(image.id.as_str(), flavour))
            },
            None => None,
        }
    }
}

fn shown_targets(known: &Vec<Target>) -> (r: Vec<String>)
    ensures
        views(r@) == shown_all(target_views(known@)),
        r@.len() == known@.len(),
{
    let mut out: Vec<String> = Vec::new();
    let mut i: usize = 0;
    while i < known.len()
        invariant
            i <= known@.len(),
            out@.len() == i,
            forall|j: int| 0 <= j < i ==> #[trigger] out@[j]@ == shown_spec(known@[j].image@, known@[j].flavour@),
        decreases known@.len() - i,
    {
        out.push(known[i].to_string());
        i = i + 1;
    }
    assert(views(out@) =~= shown_all(target_views(known@)));
    out
}

fn cat4_help(first: &str) -> (r: String)
    ensures
        r@ == "the default image is what a command given no image answers about, and what a bare `tect build` builds; a repository with one image falls back to that one, and a repository with more says which: `default-image \""@
            + first@ + "\"` in "@ + crate::layout::REPO_FILE@,
{
    crate::text::cat4(
        "the default image is what a command given no image answers about, and what a bare `tect build` builds; a repository with one image falls back to that one, and a repository with more says which: `default-image \"",
        first,
        "\"` in ",
        crate::layout::REPO_FILE,
    )
}

} // verus!
