//! repo.kdl, and what is checked across every image the repository declares.

use crate::diag::{at_v, bare, help_v, Issue, IssueV, Issues, Source, Span};
use crate::layout::REPO_FILE;
use crate::model::image::{qualified_spec, Entry, Flavour, Image, List, Seed, Workflow};
use crate::parse::module::prop_span_spec;
use crate::parse::{kids, kids_spec, prop_span};
use crate::text::first_true;
use crate::model::remote::{At, Collection};
use crate::text::{cat, cat3, decimal, decimal_spec, first_at, first_index, holds, join, join_spec, lemma_first_at_unique, owned, parse_u32, same, signed_decimal, signed_decimal_spec, split, split_once, split_spec, u32_of, views};
use crate::model::image::{SCHEMA_VERSION, TECT_VERSION};
use crate::parse::kdl::{kdl_document, parse_kdl, KNode};
use crate::parse::{int_arg, node_names, prop, prop_spec, string_arg, string_arg_spec, first_value, unnamed, as_integer};
use vstd::prelude::*;

verus! {

pub open spec fn collection_names(sources: Seq<Collection>) -> Seq<Seq<char>> {
    sources.map_values(|c: Collection| c.name@)
}

/// Whether a collection follows a moving ref.
pub open spec fn follows_ref(c: Collection) -> bool {
    c.at matches At::Archive(pin) && pin.unpinned is Some
}

/// What one entry's `source` raises: a collection `sources` does not
/// declare, or, under audit enforcement, one that follows a moving ref.
pub open spec fn entry_source_issues(e: Entry, sources: Seq<Collection>, audit: bool, file: Seq<char>) -> Seq<IssueV> {
    match e.source {
        None => Seq::empty(),
        Some(s) => match crate::text::position(collection_names(sources), s@) {
            None => seq![
                help_v(
                    at_v(bare("`"@ + s@ + "` is not declared in `sources`"@, file), e.span, "this module has nowhere to come from"@),
                    "declare the collection in repo.kdl, or list a local module outside a source block"@,
                ),
            ],
            Some(d) => if audit && follows_ref(sources[d]) {
                seq![
                    help_v(
                        at_v(bare("`"@ + s@ + "` follows an unverified ref"@, file), e.span, "this reference cannot be verified"@),
                        "pin the collection to a version and sha256, or drop audit enforcement"@,
                    ),
                ]
            } else {
                Seq::empty()
            },
        },
    }
}

pub open spec fn entries_source_issues(entries: Seq<Entry>, sources: Seq<Collection>, audit: bool, file: Seq<char>) -> Seq<IssueV>
    decreases entries.len(),
{
    if entries.len() == 0 {
        Seq::empty()
    } else {
        entries_source_issues(entries.drop_last(), sources, audit, file) + entry_source_issues(entries.last(), sources, audit, file)
    }
}

/// What an image raises against an earlier one publishing under its id.
pub open spec fn twice_issue(image: Image, other: Image) -> IssueV {
    let same_file = other.src.name@ == image.src.name@;
    help_v(
        at_v(
            bare(
                if same_file {
                    "`"@ + image.id@ + "` is declared twice"@
                } else {
                    "`"@ + image.id@ + "` is declared by two files"@
                },
                image.src.name@,
            ),
            image.span,
            if same_file {
                "also declared above"@
            } else {
                "also declared in "@ + other.src.name@
            },
        ),
        "two images cannot publish under one name; declare `id` on one of them"@,
    )
}

pub open spec fn twice_issues(image: Image, earlier: Seq<Image>) -> Seq<IssueV>
    decreases earlier.len(),
{
    if earlier.len() == 0 {
        Seq::empty()
    } else {
        let r = twice_issues(image, earlier.drop_last());
        if earlier.last().id@ == image.id@ {
            r.push(twice_issue(image, earlier.last()))
        } else {
            r
        }
    }
}

/// What a flavour raises against an image that publishes under the name
/// the flavour would.
pub open spec fn clash_issue(image: Image, f: Flavour, other: Image) -> IssueV {
    help_v(
        at_v(
            at_v(bare("two builds would publish as `"@ + image.id@ + "-"@ + f.name@ + "`"@, image.src.name@), f.span, "this flavour"@),
            image.span,
            "of this image"@,
        ),
        "the image declared "@ + (if other.src.name@ == image.src.name@ {
            "in this file"@
        } else {
            "in "@ + other.src.name@
        }) + " publishes under that name too; rename one of them"@,
    )
}

pub open spec fn clash_issues(image: Image, f: Flavour, all: Seq<Image>) -> Seq<IssueV>
    decreases all.len(),
{
    if all.len() == 0 {
        Seq::empty()
    } else {
        let r = clash_issues(image, f, all.drop_last());
        if all.last().id@ == image.id@ + "-"@ + f.name@ {
            r.push(clash_issue(image, f, all.last()))
        } else {
            r
        }
    }
}

pub open spec fn flavours_clash_issues(image: Image, flavours: Seq<Flavour>, all: Seq<Image>) -> Seq<IssueV>
    decreases flavours.len(),
{
    if flavours.len() == 0 {
        Seq::empty()
    } else {
        flavours_clash_issues(image, flavours.drop_last(), all) + clash_issues(image, flavours.last(), all)
    }
}

/// What the image at `i` raises: its entries' sources, then, for an image
/// with an id, the earlier images under the same id and the images its
/// flavours would collide with.
pub open spec fn image_issues(images: Seq<Image>, i: int, sources: Seq<Collection>, audit: bool) -> Seq<IssueV> {
    let image = images[i];
    let entries = entries_source_issues(image.entries@, sources, audit, image.src.name@);
    if image.id@.len() == 0 {
        entries
    } else {
        entries + twice_issues(image, images.take(i)) + flavours_clash_issues(image, image.flavours@, images)
    }
}

pub open spec fn images_issues(images: Seq<Image>, n: int, sources: Seq<Collection>, audit: bool) -> Seq<IssueV>
    decreases n,
{
    if n <= 0 {
        Seq::empty()
    } else {
        images_issues(images, n - 1, sources, audit) + image_issues(images, n - 1, sources, audit)
    }
}

pub open spec fn image_ids(images: Seq<Image>) -> Seq<Seq<char>> {
    images.map_values(|i: Image| i.id@)
}

/// The first segment of a qualified name: the owner it is imported under.
pub open spec fn owner_of(name: Seq<char>) -> Seq<char> {
    split_spec(name, '/')[0]
}

pub open spec fn seed_entry_issue(e: Entry, owner: Option<Seq<char>>, file: Seq<char>) -> IssueV {
    help_v(
        at_v(
            bare("`"@ + e.path@ + "` is in no collection the seed can name"@, file),
            e.span,
            match owner {
                Some(o) => "`"@ + o + "` is not declared in `sources`"@,
                None => "pinned to a source of its own"@,
            },
        ),
        "a seed lists a module by name and nothing else, so one nothing can import leaves a seeded repository unbuildable"@,
    )
}

/// What each entry of the seeded image raises whose owner `sources` does
/// not declare.
pub open spec fn seed_entries_issues(entries: Seq<Entry>, collection: Seq<char>, sources: Seq<Collection>, file: Seq<char>) -> Seq<IssueV>
    decreases entries.len(),
{
    if entries.len() == 0 {
        Seq::empty()
    } else {
        let r = seed_entries_issues(entries.drop_last(), collection, sources, file);
        let e = entries.last();
        let owner = match qualified_spec(e, collection) {
            Some(q) => Some(owner_of(q)),
            None => None,
        };
        match owner {
            Some(o) if collection_names(sources).contains(o) => r,
            _ => r.push(seed_entry_issue(e, owner, file)),
        }
    }
}

/// What a seed raises: an image that is not declared, and otherwise a
/// collection `sources` does not declare and every entry nothing can import.
pub open spec fn seed_issues(seed: Seed, images: Seq<Image>, sources: Seq<Collection>, repo: Seq<char>) -> Seq<IssueV> {
    match crate::text::position(image_ids(images), seed.image@) {
        None => seq![
            help_v(
                bare("`seed` names `"@ + seed.image@ + "`, which is not a declared image"@, repo),
                "a repository publishes a seed of one of the images declared at its root"@,
            ),
        ],
        Some(i) => {
            let collection: Seq<IssueV> = if collection_names(sources).contains(seed.collection@) {
                Seq::empty()
            } else {
                seq![
                    help_v(
                        bare("`"@ + seed.collection@ + "` is not a collection this repository declares"@, repo),
                        "a repository is seedable only if it publishes its own modules/ as a collection, and declares it in `sources` under the owner they are imported as: that is what a seeded repository fetches them through"@,
                    ),
                ]
            };
            collection + seed_entries_issues(images[i].entries@, seed.collection@, sources, images[i].src.name@)
        },
    }
}

/// What repo.kdl's own names raise: no schema version, and a default or
/// pull-request image that is not declared.
pub open spec fn named_issues(l: List) -> Seq<IssueV> {
    let images = l.images@;
    let repo = l.repo_src.name@;
    let schema: Seq<IssueV> = if !l.schema_version_seen {
        seq![
            help_v(
                bare(REPO_FILE@ + " declares no `schema-version`"@, repo),
                "`schema-version 1`, so a tool from a different release says so plainly instead of reporting every node it does not recognise"@,
            ),
        ]
    } else {
        Seq::empty()
    };
    let default: Seq<IssueV> = match l.default_image_id {
        Some(id) => if image_ids(images).contains(id@) {
            Seq::empty()
        } else {
            seq![
                help_v(
                    bare("`default-image` names `"@ + id@ + "`, which is not a declared image"@, repo),
                    "images: "@ + join_spec(image_ids(images), ", "@),
                ),
            ]
        },
        None => Seq::empty(),
    };
    let pr: Seq<IssueV> = match l.pr_image_id {
        Some(id) => if image_ids(images).contains(id@) {
            Seq::empty()
        } else {
            seq![
                help_v(
                    bare("`pr-image` names `"@ + id@ + "`, which is not a declared image"@, repo),
                    "a pull request builds one target, of one declared image"@,
                ),
            ]
        },
        None => Seq::empty(),
    };
    schema + default + pr
}

/// Everything `check_images` raises, in order.
pub open spec fn list_issues(l: List) -> Seq<IssueV> {
    let seeded: Seq<IssueV> = match l.seed {
        Some(s) => seed_issues(s, l.images@, l.sources@, l.repo_src.name@),
        None => Seq::empty(),
    };
    images_issues(l.images@, l.images@.len() as int, l.sources@, l.audit_enforce) + named_issues(l) + seeded
}

fn find_collection(sources: &Vec<Collection>, name: &str) -> (r: Option<usize>)
    ensures
        match crate::text::position(collection_names(sources@), name@) {
            Some(i) => r matches Some(j) && j as int == i && j < sources@.len(),
            None => r is None,
        },
{
    let ghost names = collection_names(sources@);
    let mut i: usize = 0;
    while i < sources.len()
        invariant
            names == collection_names(sources@),
            i <= sources@.len(),
            forall|j: int| 0 <= j < i ==> names[j] != name@,
        decreases sources@.len() - i,
    {
        assert(names[i as int] == sources@[i as int].name@);
        if same(sources[i].name.as_str(), name) {
            proof {
                crate::text::lemma_position(names, name@, i as int);
            }
            return Some(i);
        }
        i = i + 1;
    }
    proof {
        crate::text::lemma_position(names, name@, i as int);
    }
    None
}

fn find_image(images: &Vec<Image>, id: &str) -> (r: Option<usize>)
    ensures
        match crate::text::position(image_ids(images@), id@) {
            Some(i) => r matches Some(j) && j as int == i && j < images@.len(),
            None => r is None,
        },
{
    let ghost ids = image_ids(images@);
    let mut i: usize = 0;
    while i < images.len()
        invariant
            ids == image_ids(images@),
            i <= images@.len(),
            forall|j: int| 0 <= j < i ==> ids[j] != id@,
        decreases images@.len() - i,
    {
        assert(ids[i as int] == images@[i as int].id@);
        if same(images[i].id.as_str(), id) {
            proof {
                crate::text::lemma_position(ids, id@, i as int);
            }
            return Some(i);
        }
        i = i + 1;
    }
    proof {
        crate::text::lemma_position(ids, id@, i as int);
    }
    None
}

proof fn lemma_position_contains(ids: Seq<Seq<char>>, id: Seq<char>)
    ensures
        crate::text::position(ids, id) is Some <==> ids.contains(id),
{
}

fn check_entry_source(e: &Entry, sources: &Vec<Collection>, audit: bool, src: &Source, issues: &mut Issues)
    ensures
        final(issues)@ == old(issues)@ + entry_source_issues(*e, sources@, audit, src.name@),
{
    let ghost start = issues@;
    match &e.source {
        None => {
            assert(issues@ =~= start + Seq::<IssueV>::empty());
        },
        Some(s) => match find_collection(sources, s.as_str()) {
            None => {
                issues.push(
                    Issue::new(cat3("`", s.as_str(), "` is not declared in `sources`"), src).at(e.span, owned("this module has nowhere to come from")).help(
                        owned("declare the collection in repo.kdl, or list a local module outside a source block"),
                    ),
                );
            },
            Some(d) => {
                if audit && sources[d].unpinned() {
                    issues.push(
                        Issue::new(cat3("`", s.as_str(), "` follows an unverified ref"), src).at(e.span, owned("this reference cannot be verified")).help(
                            owned("pin the collection to a version and sha256, or drop audit enforcement"),
                        ),
                    );
                } else {
                    assert(issues@ =~= start + Seq::<IssueV>::empty());
                }
            },
        },
    }
}

fn check_entry_sources(image: &Image, sources: &Vec<Collection>, audit: bool, issues: &mut Issues)
    ensures
        final(issues)@ == old(issues)@ + entries_source_issues(image.entries@, sources@, audit, image.src.name@),
{
    let ghost start = issues@;
    let ghost es = image.entries@;
    let mut i: usize = 0;
    assert(issues@ =~= start + entries_source_issues(es.take(0), sources@, audit, image.src.name@));
    while i < image.entries.len()
        invariant
            es == image.entries@,
            i <= es.len(),
            issues@ == start + entries_source_issues(es.take(i as int), sources@, audit, image.src.name@),
        decreases es.len() - i,
    {
        assert(es.take(i as int + 1).drop_last() =~= es.take(i as int));
        assert(es.take(i as int + 1).last() == es[i as int]);
        check_entry_source(&image.entries[i], sources, audit, &image.src, issues);
        assert(issues@ =~= start + entries_source_issues(es.take(i as int + 1), sources@, audit, image.src.name@));
        i = i + 1;
    }
    assert(es.take(i as int) =~= es);
}

fn check_twice(images: &Vec<Image>, i: usize, issues: &mut Issues)
    requires
        i < images@.len(),
    ensures
        final(issues)@ == old(issues)@ + twice_issues(images@[i as int], images@.take(i as int)),
{
    let ghost start = issues@;
    let image = &images[i];
    let mut j: usize = 0;
    assert(images@.take(i as int).take(0) =~= Seq::<Image>::empty());
    while j < i
        invariant
            i < images@.len(),
            *image == images@[i as int],
            j <= i,
            issues@ == start + twice_issues(*image, images@.take(i as int).take(j as int)),
        decreases i - j,
    {
        let ghost pre = images@.take(i as int).take(j as int + 1);
        assert(pre.drop_last() =~= images@.take(i as int).take(j as int));
        assert(pre.last() == images@[j as int]);
        let other = &images[j];
        if same(other.id.as_str(), image.id.as_str()) {
            let same_file = same(other.src.name.as_str(), image.src.name.as_str());
            let message = if same_file {
                cat3("`", image.id.as_str(), "` is declared twice")
            } else {
                cat3("`", image.id.as_str(), "` is declared by two files")
            };
            let label = if same_file {
                owned("also declared above")
            } else {
                cat("also declared in ", other.src.name.as_str())
            };
            issues.push(
                Issue::new(message, &image.src).at(image.span, label).help(
                    owned("two images cannot publish under one name; declare `id` on one of them"),
                ),
            );
        }
        j = j + 1;
    }
    assert(images@.take(i as int).take(i as int) =~= images@.take(i as int));
}

fn check_clashes(image: &Image, f: &Flavour, all: &Vec<Image>, issues: &mut Issues)
    ensures
        final(issues)@ == old(issues)@ + clash_issues(*image, *f, all@),
{
    let ghost start = issues@;
    let published = cat3(image.id.as_str(), "-", f.name.as_str());
    let mut j: usize = 0;
    assert(all@.take(0) =~= Seq::<Image>::empty());
    while j < all.len()
        invariant
            published@ == image.id@ + "-"@ + f.name@,
            j <= all@.len(),
            issues@ == start + clash_issues(*image, *f, all@.take(j as int)),
        decreases all@.len() - j,
    {
        assert(all@.take(j as int + 1).drop_last() =~= all@.take(j as int));
        assert(all@.take(j as int + 1).last() == all@[j as int]);
        let other = &all[j];
        if same(other.id.as_str(), published.as_str()) {
            let whence = if same(other.src.name.as_str(), image.src.name.as_str()) {
                owned("in this file")
            } else {
                cat("in ", other.src.name.as_str())
            };
            let message = cat3("two builds would publish as `", published.as_str(), "`");
            assert(message@ =~= "two builds would publish as `"@ + image.id@ + "-"@ + f.name@ + "`"@);
            issues.push(
                Issue::new(message, &image.src).at(f.span, owned("this flavour")).at(
                    image.span,
                    owned("of this image"),
                ).help(cat3("the image declared ", whence.as_str(), " publishes under that name too; rename one of them")),
            );
        }
        j = j + 1;
    }
    assert(all@.take(j as int) =~= all@);
}

fn check_flavour_clashes(image: &Image, all: &Vec<Image>, issues: &mut Issues)
    ensures
        final(issues)@ == old(issues)@ + flavours_clash_issues(*image, image.flavours@, all@),
{
    let ghost start = issues@;
    let ghost fs = image.flavours@;
    let mut k: usize = 0;
    assert(issues@ =~= start + flavours_clash_issues(*image, fs.take(0), all@));
    while k < image.flavours.len()
        invariant
            fs == image.flavours@,
            k <= fs.len(),
            issues@ == start + flavours_clash_issues(*image, fs.take(k as int), all@),
        decreases fs.len() - k,
    {
        assert(fs.take(k as int + 1).drop_last() =~= fs.take(k as int));
        assert(fs.take(k as int + 1).last() == fs[k as int]);
        check_clashes(image, &image.flavours[k], all, issues);
        assert(issues@ =~= start + flavours_clash_issues(*image, fs.take(k as int + 1), all@));
        k = k + 1;
    }
    assert(fs.take(k as int) =~= fs);
}

fn first_segment(name: &str) -> (r: String)
    ensures
        r@ == owner_of(name@),
{
    let parts = split(name, '/');
    proof {
        crate::text::lemma_split_nonempty(name@, '/');
    }
    assert(views(parts@)[0] == parts@[0]@);
    parts[0].clone()
}

fn listed_collection(sources: &Vec<Collection>, name: &str) -> (r: bool)
    ensures
        r == collection_names(sources@).contains(name@),
{
    proof {
        lemma_position_contains(collection_names(sources@), name@);
    }
    find_collection(sources, name).is_some()
}

fn check_seed_entries(image: &Image, collection: &str, sources: &Vec<Collection>, issues: &mut Issues)
    ensures
        final(issues)@ == old(issues)@ + seed_entries_issues(image.entries@, collection@, sources@, image.src.name@),
{
    let ghost start = issues@;
    let ghost es = image.entries@;
    let mut i: usize = 0;
    assert(issues@ =~= start + seed_entries_issues(es.take(0), collection@, sources@, image.src.name@));
    while i < image.entries.len()
        invariant
            es == image.entries@,
            i <= es.len(),
            issues@ == start + seed_entries_issues(es.take(i as int), collection@, sources@, image.src.name@),
        decreases es.len() - i,
    {
        assert(es.take(i as int + 1).drop_last() =~= es.take(i as int));
        assert(es.take(i as int + 1).last() == es[i as int]);
        let e = &image.entries[i];
        let owner = match e.qualified(collection) {
            Some(q) => Some(first_segment(q.as_str())),
            None => None,
        };
        let declared = match &owner {
            Some(o) => listed_collection(sources, o.as_str()),
            None => false,
        };
        if !declared {
            let label = match &owner {
                Some(o) => cat3("`", o.as_str(), "` is not declared in `sources`"),
                None => owned("pinned to a source of its own"),
            };
            issues.push(
                Issue::new(cat3("`", e.path.as_str(), "` is in no collection the seed can name"), &image.src).at(e.span, label).help(
                    owned("a seed lists a module by name and nothing else, so one nothing can import leaves a seeded repository unbuildable"),
                ),
            );
        }
        assert(issues@ =~= start + seed_entries_issues(es.take(i as int + 1), collection@, sources@, image.src.name@));
        i = i + 1;
    }
    assert(es.take(i as int) =~= es);
}

fn id_list(images: &Vec<Image>) -> (r: Vec<String>)
    ensures
        views(r@) == image_ids(images@),
{
    let mut ids: Vec<String> = Vec::new();
    let mut k: usize = 0;
    assert(views(ids@) =~= image_ids(images@).take(0));
    while k < images.len()
        invariant
            k <= images@.len(),
            views(ids@) == image_ids(images@).take(k as int),
        decreases images@.len() - k,
    {
        let ghost prior = ids@;
        let id_k = owned(images[k].id.as_str());
        ids.push(id_k);
        assert(views(ids@) =~= views(prior).push(images@[k as int].id@));
        assert(image_ids(images@).take(k as int + 1) =~= image_ids(images@).take(k as int).push(images@[k as int].id@));
        k = k + 1;
    }
    assert(image_ids(images@).take(k as int) =~= image_ids(images@));
    ids
}

impl List {
    /// Whether the seeded image is one a seeded repository could resolve: it
    /// carries module names and nothing else, so every one of them has to be
    /// fetchable from a collection this repository declares.
    pub fn check_seed(&self, seed: &Seed, issues: &mut Issues)
        ensures
            final(issues)@ == old(issues)@ + seed_issues(*seed, self.images@, self.sources@, self.repo_src.name@),
    {
        let ghost start = issues@;
        let i = match find_image(&self.images, seed.image.as_str()) {
            Some(i) => i,
            None => {
                issues.push(
                    Issue::new(cat3("`seed` names `", seed.image.as_str(), "`, which is not a declared image"), &self.repo_src).help(
                        owned("a repository publishes a seed of one of the images declared at its root"),
                    ),
                );
                return;
            },
        };
        if !listed_collection(&self.sources, seed.collection.as_str()) {
            issues.push(
                Issue::new(cat3("`", seed.collection.as_str(), "` is not a collection this repository declares"), &self.repo_src).help(
                    owned(
                        "a repository is seedable only if it publishes its own modules/ as a collection, and declares it in `sources` under the owner they are imported as: that is what a seeded repository fetches them through",
                    ),
                ),
            );
        }
        let ghost mid = issues@;
        check_seed_entries(&self.images[i], seed.collection.as_str(), &self.sources, issues);
        assert(issues@ =~= start + seed_issues(*seed, self.images@, self.sources@, self.repo_src.name@));
    }

    /// Every image in turn: where each entry comes from, and that no two
    /// builds publish under one name.
    fn check_each_image(&self, issues: &mut Issues)
        ensures
            final(issues)@ == old(issues)@ + images_issues(self.images@, self.images@.len() as int, self.sources@, self.audit_enforce),
    {
        let ghost start = issues@;
        let ghost images = self.images@;
        let mut i: usize = 0;
        while i < self.images.len()
            invariant
                images == self.images@,
                i <= images.len(),
                issues@ == start + images_issues(images, i as int, self.sources@, self.audit_enforce),
            decreases images.len() - i,
        {
            let ghost before = issues@;
            let image = &self.images[i];
            check_entry_sources(image, &self.sources, self.audit_enforce, issues);
            if image.id.unicode_len() > 0 {
                check_twice(&self.images, i, issues);
                check_flavour_clashes(image, &self.images, issues);
            }
            assert(issues@ =~= before + image_issues(images, i as int, self.sources@, self.audit_enforce));
            assert(issues@ =~= start + images_issues(images, i as int + 1, self.sources@, self.audit_enforce));
            i = i + 1;
        }
    }

    /// What repo.kdl names has to exist: the schema version, the default
    /// image and the pull-request image.
    #[verifier::spinoff_prover]
    #[verifier::rlimit(40)]
    fn check_named(&self, issues: &mut Issues)
        ensures
            final(issues)@ == old(issues)@ + named_issues(*self),
    {
        let ghost start = issues@;
        let ghost images = self.images@;
        if !self.schema_version_seen {
            issues.push(
                Issue::new(cat(REPO_FILE, " declares no `schema-version`"), &self.repo_src).help(
                    owned(
                        "`schema-version 1`, so a tool from a different release says so plainly instead of reporting every node it does not recognise",
                    ),
                ),
            );
        }
        if let Some(id) = &self.default_image_id {
            proof {
                lemma_position_contains(image_ids(images), id@);
            }
            if find_image(&self.images, id.as_str()).is_none() {
                let ids = id_list(&self.images);
                let listed = join(&ids, ", ");
                issues.push(
                    Issue::new(cat3("`default-image` names `", id.as_str(), "`, which is not a declared image"), &self.repo_src).help(
                        cat("images: ", listed.as_str()),
                    ),
                );
            }
        }
        if let Some(id) = &self.pr_image_id {
            proof {
                lemma_position_contains(image_ids(images), id@);
            }
            if find_image(&self.images, id.as_str()).is_none() {
                issues.push(
                    Issue::new(cat3("`pr-image` names `", id.as_str(), "`, which is not a declared image"), &self.repo_src).help(
                        owned("a pull request builds one target, of one declared image"),
                    ),
                );
            }
        }
        assert(issues@ =~= start + named_issues(*self));
    }

    /// What is checked across every image: where each entry comes from, that
    /// no two builds publish under one name, and that what repo.kdl names
    /// exists.
    pub fn check_images(&self, issues: &mut Issues)
        ensures
            final(issues)@ == old(issues)@ + list_issues(*self),
    {
        let ghost start = issues@;
        self.check_each_image(issues);
        self.check_named(issues);
        if let Some(seed) = &self.seed {
            self.check_seed(seed, issues);
        }
        assert(issues@ =~= start + list_issues(*self));
    }
}

/// `HH:MM`, as cron's hour and minute.
pub open spec fn time_spec(v: Seq<char>) -> Option<(u32, u32)> {
    if holds(v, seq![':']) {
        let at = first_index(v, seq![':']);
        match (u32_of(v.take(at)), u32_of(v.skip(at + 1))) {
            (Some(h), Some(m)) => if h < 24 && m < 60 {
                Some((h, m))
            } else {
                None
            },
            _ => None,
        }
    } else {
        None
    }
}

pub fn time(value: &str) -> (r: Option<(u32, u32)>)
    ensures
        r == time_spec(value@),
{
    proof {
        reveal_strlit(":");
        assert(":"@ =~= seq![':']);
    }
    let (hour, minute) = match split_once(value, ":") {
        Some(p) => p,
        None => return None,
    };
    proof {
        let at = choose|at: int| #![trigger first_at(value@, ":"@, at)] first_at(value@, ":"@, at) && hour@ == value@.take(at) && minute@ == value@.skip(at + 1);
        lemma_first_at_unique(value@, seq![':'], at, first_index(value@, seq![':']));
    }
    let h = match parse_u32(hour.as_str()) {
        Some(h) => h,
        None => return None,
    };
    let m = match parse_u32(minute.as_str()) {
        Some(m) => m,
        None => return None,
    };
    if h < 24 && m < 60 {
        Some((h, m))
    } else {
        None
    }
}

/// A number written with at least two digits.
pub open spec fn two_digits(n: u32) -> Seq<char> {
    if n < 10 {
        seq!['0'] + decimal_spec(n as nat)
    } else {
        decimal_spec(n as nat)
    }
}

fn pad2(n: u32) -> (r: String)
    ensures
        r@ == two_digits(n),
{
    let d = decimal(n as u64);
    if n < 10 {
        let mut s = String::new();
        crate::text::push_char(&mut s, '0');
        s.append(d.as_str());
        assert(s@ =~= seq!['0'] + decimal_spec(n as nat));
        s
    } else {
        d
    }
}

/// The `at` a repository declaring the default writes: `HH:MM`.
pub fn at_text(at: (u32, u32)) -> (r: String)
    ensures
        r@ == two_digits(at.0) + seq![':'] + two_digits(at.1),
{
    let mut s = pad2(at.0);
    crate::text::push_char(&mut s, ':');
    let m = pad2(at.1);
    s.append(m.as_str());
    s
}

/// A time reads as its hour and its minute, the two numbers either side of
/// the colon, where they are an hour of the day and a minute of the hour;
/// anything else is no time.
pub proof fn lemma_time_reads_hour_and_minute(a: Seq<char>, b: Seq<char>)
    requires
        u32_of(a) is Some,
        u32_of(b) is Some,
    ensures
        time_spec(a + seq![':'] + b) == (if u32_of(a)->0 < 24 && u32_of(b)->0 < 60 {
            Some((u32_of(a)->0, u32_of(b)->0))
        } else {
            None::<(u32, u32)>
        }),
{
    let v = a + seq![':'] + b;
    let c = seq![':'];
    let n = a.len() as int;
    assert(v.subrange(n, n + 1) =~= c);
    assert(crate::text::occurs_at(v, c, n));
    assert forall|j: int| 0 <= j < n implies !crate::text::occurs_at(v, c, j) by {
        assert(v[j] == a[j]);
        assert(v.subrange(j, j + 1)[0] == v[j]);
        if a.len() > 0 && a[0] == '+' {
            if j > 0 {
                assert(a.skip(1)[j - 1] == a[j]);
            }
        } else {
            assert(a[j] == a[j]);
        }
    }
    assert(first_at(v, c, n));
    assert(holds(v, c));
    let at = first_index(v, c);
    lemma_first_at_unique(v, c, at, n);
    assert(v.take(n) =~= a);
    assert(v.skip(n + 1) =~= b);
}

/// Whatever reads as a time is an hour and a minute either side of a colon.
pub proof fn lemma_time_is_hour_colon_minute(v: Seq<char>)
    requires
        time_spec(v) is Some,
    ensures
        match time_spec(v) {
            Some((h, m)) => exists|a: Seq<char>, b: Seq<char>|
                v == a + seq![':'] + b && u32_of(a) == Some(h) && u32_of(b) == Some(m) && h < 24 && m < 60,
            None => true,
        },
{
    let c = seq![':'];
    let at = first_index(v, c);
    let w = choose|w: int| crate::text::occurs_at(v, c, w);
    assert(first_at(v, c, at)) by {
        assert(exists|k: int| first_at(v, c, k)) by {
            crate::text::lemma_first_occurrence(v, c, w);
        }
    }
    let a = v.take(at);
    let b = v.skip(at + 1);
    assert(v.subrange(at, at + 1) =~= c);
    assert(v =~= a + c + b) by {
        assert forall|i: int| 0 <= i < v.len() implies v[i] == (a + c + b)[i] by {
            if i == at {
                assert(v.subrange(at, at + 1)[0] == v[at]);
            }
        }
    }
}

/// What `at_text` writes reads back as the same time.
pub proof fn lemma_at_text_reads_back(h: u32, m: u32)
    requires
        h < 24,
        m < 60,
    ensures
        time_spec(two_digits(h) + seq![':'] + two_digits(m)) == Some((h, m)),
{
    lemma_two_digits_read_back(h);
    lemma_two_digits_read_back(m);
    lemma_time_reads_hour_and_minute(two_digits(h), two_digits(m));
}

proof fn lemma_two_digits_read_back(n: u32)
    ensures
        u32_of(two_digits(n)) == Some(n),
{
    crate::text::lemma_decimal_reads_back(n as nat);
    let d = decimal_spec(n as nat);
    if n < 10 {
        crate::text::lemma_leading_zero(d);
        assert((seq!['0'] + d)[0] == '0');
    }
}

/// What repo.kdl declares about which tool reads it: the schema version and
/// where, the tect release and where, and the release's sha256.
pub struct Pins {
    pub schema: Option<(i128, Span)>,
    pub tect: Option<(String, Span)>,
    pub tect_sha: Option<String>,
}

/// The first node by that name among a document's.
pub open spec fn first_node(nodes: Seq<KNode>, name: Seq<char>) -> Option<KNode> {
    match crate::text::position(node_names(nodes), name) {
        Some(i) => Some(nodes[i]),
        None => None,
    }
}

pub open spec fn int_arg_spec(n: KNode) -> Option<i128> {
    match first_value(n.entries@, unnamed(n.entries@)) {
        Some(v) => as_integer(v),
        None => None,
    }
}

pub type PinsV = (Option<(i128, Span)>, Option<(Seq<char>, Span)>, Option<Seq<char>>);

pub open spec fn pins_view(p: Pins) -> PinsV {
    (
        p.schema,
        match p.tect {
            Some((v, s)) => Some((v@, s)),
            None => None,
        },
        match p.tect_sha {
            Some(h) => Some(h@),
            None => None,
        },
    )
}

/// The pins a repo.kdl holding `text` declares; nothing where it holds no
/// document.
pub open spec fn pins_spec(text: Seq<char>) -> Option<PinsV> {
    match kdl_document(text) {
        Err(_) => None,
        Ok(nodes) => Some(pins_of_spec(nodes)),
    }
}

/// The pins among a document's nodes.
pub open spec fn pins_of_spec(nodes: Seq<KNode>) -> PinsV {
    (
        match first_node(nodes, "schema-version"@) {
            Some(n) => match int_arg_spec(n) {
                Some(v) => Some((v, n.name_span)),
                None => None,
            },
            None => None,
        },
        match first_node(nodes, "tect-version"@) {
            Some(n) => match string_arg_spec(n) {
                Some(v) => Some((v, n.name_span)),
                None => None,
            },
            None => None,
        },
        match first_node(nodes, "tect-version"@) {
            Some(n) => prop_spec(n, "sha256"@),
            None => None,
        },
    )
}

fn find_node<'a>(nodes: &'a Vec<KNode>, name: &str) -> (r: Option<&'a KNode>)
    ensures
        match first_node(nodes@, name@) {
            Some(n) => r == Some(&n),
            None => r is None,
        },
{
    let mut i: usize = 0;
    while i < nodes.len()
        invariant
            i <= nodes@.len(),
            forall|j: int| 0 <= j < i ==> node_names(nodes@)[j] != name@,
        decreases nodes@.len() - i,
    {
        if same(nodes[i].name.as_str(), name) {
            proof {
                crate::text::lemma_position(node_names(nodes@), name@, i as int);
            }
            return Some(&nodes[i]);
        }
        i = i + 1;
    }
    proof {
        crate::text::lemma_position(node_names(nodes@), name@, i as int);
    }
    None
}

/// Read directly rather than through the grammar, and before anything else,
/// because they decide whether this release reads the rest at all.
pub fn pins(text: &str) -> (r: Option<Pins>)
    ensures
        match pins_spec(text@) {
            Some(p) => r matches Some(v) && pins_view(v) == p,
            None => r is None,
        },
{
    let nodes = match parse_kdl(text) {
        Ok(n) => n,
        Err(_) => return None,
    };
    Some(pins_of(&nodes))
}

/// The pins a parsed repo.kdl declares.
pub fn pins_of(nodes: &Vec<KNode>) -> (r: Pins)
    ensures
        pins_view(r) == pins_of_spec(nodes@),
{
    let schema = match find_node(&nodes, "schema-version") {
        Some(n) => match int_arg(n) {
            Some(v) => Some((v, n.name_span)),
            None => None,
        },
        None => None,
    };
    let tect = match find_node(&nodes, "tect-version") {
        Some(n) => match string_arg(n) {
            Some(v) => Some((owned(v), n.name_span)),
            None => None,
        },
        None => None,
    };
    let tect_sha = match find_node(&nodes, "tect-version") {
        Some(n) => match prop(n, "sha256") {
            Some(h) => Some(owned(h)),
            None => None,
        },
        None => None,
    };
    Pins { schema, tect, tect_sha }
}

/// What a repository written against another schema raises: refused, and
/// told which release reads it.
pub open spec fn schema_issue(version: i128, span: Span, file: Seq<char>) -> IssueV {
    help_v(
        at_v(bare("this repository is written against schema version "@ + signed_decimal_spec(version as int), file), span, "this tool knows 1"@),
        if version > 1 {
            "the repository is ahead of the tool; `tect-version` names the release that reads it, and `scripts/tect.sh` fetches that one"@
        } else {
            "nothing here moves a repository to schema 1, and nothing else in it is read either, because every diagnostic under a grammar this release does not have would be noise; run the release `tect-version` names, which `scripts/tect.sh` fetches"@
        },
    )
}

/// Whether this release may work in a repository whose repo.kdl, at `file`,
/// holds `text` (nothing where it cannot be read): refused where it declares
/// another schema version.
pub fn compatible(text: Option<&str>, file: &str) -> (r: Issues)
    ensures
        r@ == (match text {
            Some(t) => match pins_spec(t@) {
                Some(p) => match p.0 {
                    Some((v, span)) => if v != 1 {
                        seq![schema_issue(v, span, file@)]
                    } else {
                        Seq::empty()
                    },
                    None => Seq::empty(),
                },
                None => Seq::empty(),
            },
            None => Seq::empty(),
        }),
{
    let mut issues = Issues::new();
    let t = match text {
        Some(t) => t,
        None => return issues,
    };
    let p = match pins(t) {
        Some(p) => p,
        None => return issues,
    };
    if let Some((version, span)) = p.schema {
        if version != 1 {
            let src = Source::new(file, t);
            let help = if version > 1 {
                owned("the repository is ahead of the tool; `tect-version` names the release that reads it, and `scripts/tect.sh` fetches that one")
            } else {
                owned(
                    "nothing here moves a repository to schema 1, and nothing else in it is read either, because every diagnostic under a grammar this release does not have would be noise; run the release `tect-version` names, which `scripts/tect.sh` fetches",
                )
            };
            let v = signed_decimal(version);
            issues.push(
                Issue::new(cat("this repository is written against schema version ", v.as_str()), &src).at(span, owned("this tool knows 1")).help(
                    help,
                ),
            );
        }
    }
    issues
}

/// The release a repository pins, when that is not this one.
pub fn pinned_elsewhere(text: Option<&str>) -> (r: Option<String>)
    ensures
        match r {
            Some(v) => text matches Some(t) && pins_spec(t@) matches Some(p) && p.1 matches Some((w, _)) && w == v@ && v@ != TECT_VERSION@,
            None => !(text matches Some(t) && pins_spec(t@) matches Some(p) && p.1 matches Some((w, _)) && w != TECT_VERSION@),
        },
{
    let t = match text {
        Some(t) => t,
        None => return None,
    };
    let p = match pins(t) {
        Some(p) => p,
        None => return None,
    };
    match p.tect {
        Some((v, _)) => if same(v.as_str(), TECT_VERSION) {
            None
        } else {
            Some(v)
        },
        None => None,
    }
}

/// A release pinned with no declared sha256.
pub fn pinned_unverified(text: Option<&str>) -> (r: Option<String>)
    ensures
        match r {
            Some(v) => text matches Some(t) && pins_spec(t@) matches Some(p) && p.1 matches Some((w, _)) && w == v@ && p.2 is None,
            None => !(text matches Some(t) && pins_spec(t@) matches Some(p) && p.1 is Some && p.2 is None),
        },
{
    let t = match text {
        Some(t) => t,
        None => return None,
    };
    let p = match pins(t) {
        Some(p) => p,
        None => return None,
    };
    if p.tect_sha.is_some() {
        return None;
    }
    match p.tect {
        Some((v, _)) => Some(v),
        None => None,
    }
}

/// Where the `workflows` block sits, for the one command that rewrites a
/// node it did not write.
pub fn workflows_span(text: &str) -> (r: Option<Span>)
    ensures
        r == (match kdl_document(text@) {
            Ok(nodes) => match first_node(nodes, "workflows"@) {
                Some(n) => Some(n.span),
                None => None,
            },
            Err(_) => None,
        }),
{
    let nodes = match parse_kdl(text) {
        Ok(n) => n,
        Err(_) => return None,
    };
    workflows_span_in(&nodes)
}

/// Where the `workflows` block sits among parsed nodes.
pub fn workflows_span_in(nodes: &Vec<KNode>) -> (r: Option<Span>)
    ensures
        r == (match first_node(nodes@, "workflows"@) {
            Some(n) => Some(n.span),
            None => None,
        }),
{
    match find_node(nodes, "workflows") {
        Some(n) => Some(n.span),
        None => None,
    }
}

pub open spec fn span_or_default(o: Option<Span>) -> Span {
    match o {
        Some(s) => s,
        None => Span { offset: 0, len: 0 },
    }
}

pub fn span_of(o: Option<Span>) -> (r: Span)
    ensures
        r == span_or_default(o),
{
    match o {
        Some(s) => s,
        None => Span::new(0, 0),
    }
}

/// What `at=` on `workflows` gives (the daily build's time, or `at` kept),
/// and what it raises.
pub open spec fn at_spec(block: KNode, at: (u32, u32), source: Seq<char>) -> ((u32, u32), Seq<IssueV>) {
    match prop_spec(block, "at"@) {
        None => (at, Seq::empty()),
        Some(a) => match time_spec(a) {
            Some(t) => (t, Seq::empty()),
            None => (
                at,
                seq![
                    help_v(
                        at_v(bare("`"@ + a + "` is not a time of day"@, source), span_or_default(prop_span_spec(block, "at"@)), "not `HH:MM`"@),
                        "`workflows at=\"12:30\"`, the hour and minute the daily build runs, UTC"@,
                    ),
                ],
            ),
        },
    }
}

/// What a cadence property gives (scheduled, or `current` kept), and what a
/// value other than `scheduled` raises.
pub open spec fn cadence_spec(block: KNode, key: Seq<char>, current: bool, help: Seq<char>, source: Seq<char>) -> (bool, Seq<IssueV>) {
    match prop_spec(block, key) {
        None => (current, Seq::empty()),
        Some(v) => if v == "scheduled"@ {
            (true, Seq::empty())
        } else {
            (
                current,
                seq![
                    help_v(
                        at_v(bare("`"@ + v + "` is not a "@ + key + " cadence"@, source), span_or_default(prop_span_spec(block, key)), "not `scheduled`"@),
                        help,
                    ),
                ],
            )
        },
    }
}

pub open spec fn publish_help() -> Seq<char> {
    "`workflows publish=\"scheduled\"`, to publish only on the daily build; omit `publish` to publish on pushes too"@
}

pub open spec fn scan_help() -> Seq<char> {
    "`workflows scan=\"scheduled\"`, to scan only on the daily build; omit `scan` to scan on pushes too"@
}

pub type WorkflowV = (Seq<char>, Span);

pub open spec fn workflow_views(ws: Seq<Workflow>) -> Seq<WorkflowV> {
    ws.map_values(|w: Workflow| (w.name@, w.span))
}

pub open spec fn workflow_marks(done: Seq<WorkflowV>, name: Seq<char>) -> Seq<bool> {
    done.map_values(|w: WorkflowV| w.0 == name)
}

/// One child of `workflows` onto the workflows named before it.
pub open spec fn workflow_step(done: Seq<WorkflowV>, node: KNode, source: Seq<char>) -> (Seq<WorkflowV>, Seq<IssueV>) {
    let name = node.name@;
    match first_true(workflow_marks(done, name)) {
        Some(d) => (
            done,
            seq![
                help_v(
                    at_v(at_v(bare("workflow `"@ + name + "` is declared twice"@, source), done[d].1, "first here"@), node.name_span, "and again here"@),
                    "a workflow is either generated or absent, so naming it twice says nothing the once did not"@,
                ),
            ],
        ),
        None => (done.push((name, node.name_span)), Seq::empty()),
    }
}

pub open spec fn workflows_spec(kids: Seq<KNode>, done: Seq<WorkflowV>, source: Seq<char>) -> (Seq<WorkflowV>, Seq<IssueV>)
    decreases kids.len(),
{
    if kids.len() == 0 {
        (done, Seq::empty())
    } else {
        let (ws, is) = workflows_spec(kids.drop_last(), done, source);
        let (ws2, is2) = workflow_step(ws, kids.last(), source);
        (ws2, is + is2)
    }
}

fn cadence(block: &KNode, key: &str, current: &mut bool, help: &str, src: &Source, issues: &mut Issues)
    ensures
        *final(current) == cadence_spec(*block, key@, *old(current), help@, src.name@).0,
        final(issues)@ == old(issues)@ + cadence_spec(*block, key@, *old(current), help@, src.name@).1,
{
    let ghost start = issues@;
    match prop(block, key) {
        None => {
            assert(issues@ =~= start + Seq::<IssueV>::empty());
        },
        Some(v) => if same(v, "scheduled") {
            *current = true;
            assert(issues@ =~= start + Seq::<IssueV>::empty());
        } else {
            let span = span_of(prop_span(block, key));
            let message = cat(crate::text::cat4("`", v, "` is not a ", key).as_str(), " cadence");
            issues.push(Issue::new(message, src).at(span, owned("not `scheduled`")).help(owned(help)));
        },
    }
}

fn add_workflow(node: &KNode, done: &mut Vec<Workflow>, src: &Source, issues: &mut Issues)
    ensures
        workflow_views(final(done)@) == workflow_step(workflow_views(old(done)@), *node, src.name@).0,
        final(issues)@ == old(issues)@ + workflow_step(workflow_views(old(done)@), *node, src.name@).1,
{
    let ghost start = issues@;
    let ghost prior = done@;
    let ghost marks = workflow_marks(workflow_views(done@), node.name@);
    let mut i: usize = 0;
    while i < done.len()
        invariant
            marks == workflow_marks(workflow_views(done@), node.name@),
            i <= done@.len(),
            forall|j: int| 0 <= j < i ==> !marks[j],
            issues@ == start,
            done@ == prior,
            start == old(issues)@,
            prior == old(done)@,
        decreases done@.len() - i,
    {
        if same(done[i].name.as_str(), node.name.as_str()) {
            proof {
                crate::text::lemma_first_true(marks, i as int);
            }
            issues.push(
                Issue::new(cat3("workflow `", node.name.as_str(), "` is declared twice"), src).at(done[i].span, owned("first here")).at(
                    node.name_span,
                    owned("and again here"),
                ).help(owned("a workflow is either generated or absent, so naming it twice says nothing the once did not")),
            );
            assert(issues@ =~= start + workflow_step(workflow_views(prior), *node, src.name@).1);
            return;
        }
        i = i + 1;
    }
    proof {
        crate::text::lemma_first_true(marks, i as int);
    }
    done.push(Workflow { name: node.name.clone(), span: node.name_span });
    assert(workflow_views(done@) =~= workflow_views(prior).push((node.name@, node.name_span)));
    assert(issues@ =~= start + Seq::<IssueV>::empty());
}

fn read_at(block: &KNode, at: &mut (u32, u32), src: &Source, issues: &mut Issues)
    ensures
        *final(at) == at_spec(*block, *old(at), src.name@).0,
        final(issues)@ == old(issues)@ + at_spec(*block, *old(at), src.name@).1,
{
    let ghost start = issues@;
    match prop(block, "at") {
        None => {},
        Some(a) => match time(a) {
            Some(t) => {
                *at = t;
            },
            None => {
                let span = span_of(prop_span(block, "at"));
                issues.push(
                    Issue::new(cat3("`", a, "` is not a time of day"), src).at(span, owned("not `HH:MM`")).help(
                        owned("`workflows at=\"12:30\"`, the hour and minute the daily build runs, UTC"),
                    ),
                );
            },
        },
    }
    assert(issues@ =~= start + at_spec(*block, *old(at), src.name@).1);
}

fn read_workflow_kids(block: &KNode, workflows: &mut Vec<Workflow>, src: &Source, issues: &mut Issues)
    ensures
        workflow_views(final(workflows)@) == workflows_spec(kids_spec(*block), workflow_views(old(workflows)@), src.name@).0,
        final(issues)@ == old(issues)@ + workflows_spec(kids_spec(*block), workflow_views(old(workflows)@), src.name@).1,
{
    let ghost start = issues@;
    let ghost w0 = workflow_views(workflows@);
    let ks = kids(block);
    let mut i: usize = 0;
    assert(ks@.take(0) =~= Seq::<KNode>::empty());
    assert(issues@ =~= start + Seq::<IssueV>::empty());
    while i < ks.len()
        invariant
            ks@ == kids_spec(*block),
            i <= ks@.len(),
            workflow_views(workflows@) == workflows_spec(ks@.take(i as int), w0, src.name@).0,
            issues@ == start + workflows_spec(ks@.take(i as int), w0, src.name@).1,
        decreases ks@.len() - i,
    {
        assert(ks@.take(i as int + 1).drop_last() =~= ks@.take(i as int));
        assert(ks@.take(i as int + 1).last() == ks@[i as int]);
        add_workflow(&ks[i], workflows, src, issues);
        i = i + 1;
    }
    assert(ks@.take(i as int) =~= ks@);
}

/// `workflows at="12:30" { build; smoke-test }`: each child names a workflow
/// by its file stem, and `at` is the one time the rest hang off.
pub fn parse_workflows(
    block: &KNode,
    at: &mut (u32, u32),
    publishes: &mut bool,
    scans: &mut bool,
    workflows: &mut Vec<Workflow>,
    src: &Source,
    issues: &mut Issues,
)
    ensures
        *final(at) == at_spec(*block, *old(at), src.name@).0,
        *final(publishes) == cadence_spec(*block, "publish"@, *old(publishes), publish_help(), src.name@).0,
        *final(scans) == cadence_spec(*block, "scan"@, *old(scans), scan_help(), src.name@).0,
        workflow_views(final(workflows)@) == workflows_spec(kids_spec(*block), workflow_views(old(workflows)@), src.name@).0,
        final(issues)@ == old(issues)@ + at_spec(*block, *old(at), src.name@).1
            + cadence_spec(*block, "publish"@, *old(publishes), publish_help(), src.name@).1
            + cadence_spec(*block, "scan"@, *old(scans), scan_help(), src.name@).1
            + workflows_spec(kids_spec(*block), workflow_views(old(workflows)@), src.name@).1,
{
    read_at(block, at, src, issues);
    cadence(
        block,
        "publish",
        publishes,
        "`workflows publish=\"scheduled\"`, to publish only on the daily build; omit `publish` to publish on pushes too",
        src,
        issues,
    );
    cadence(
        block,
        "scan",
        scans,
        "`workflows scan=\"scheduled\"`, to scan only on the daily build; omit `scan` to scan on pushes too",
        src,
        issues,
    );
    read_workflow_kids(block, workflows, src, issues);
}

/// No workflow is named twice.
pub open spec fn unique_workflows(ws: Seq<WorkflowV>) -> bool {
    forall|i: int, j: int| 0 <= i < j < ws.len() ==> ws[i].0 != ws[j].0
}

/// A `workflows` block names each workflow once: a second naming is dropped.
pub proof fn lemma_workflows_unique(kids: Seq<KNode>, done: Seq<WorkflowV>, source: Seq<char>)
    requires
        unique_workflows(done),
    ensures
        unique_workflows(workflows_spec(kids, done, source).0),
    decreases kids.len(),
{
    if kids.len() > 0 {
        lemma_workflows_unique(kids.drop_last(), done, source);
        let ws = workflows_spec(kids.drop_last(), done, source).0;
        let node = kids.last();
        if first_true(workflow_marks(ws, node.name@)) is None {
            let marks = workflow_marks(ws, node.name@);
            assert forall|j: int| 0 <= j < ws.len() implies ws[j].0 != node.name@ by {
                if ws[j].0 == node.name@ {
                    assert(marks[j]);
                }
            }
            let out = ws.push((node.name@, node.name_span));
            assert forall|i: int, j: int| 0 <= i < j < out.len() implies out[i].0 != out[j].0 by {
                if j == ws.len() {
                    assert(out[i] == ws[i]);
                }
            }
        }
    }
}

} // verus!
