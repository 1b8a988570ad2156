//! The whole disks an install can go onto. Reading `/sys/block` and
//! `/proc/mounts` is the program's; which of the devices found are offered,
//! and how each is told apart, is here.

use crate::parse::disk::{keys_of, put};
use crate::text::{
    ascending, cat, cat3, decimal_wide, lines, lines_spec, parse_u64, same, starts_with, trim,
    trim_spec, u64_of, words, words_spec,
};
use vstd::prelude::*;

verus! {

/// Half a kilobyte, which is what `/sys/block/<disk>/size` counts whatever the
/// device's own sector size is.
pub const SECTOR: u128 = 512;

/// What a removable disk says of itself beside its size.
pub const REMOVABLE: &'static str = "removable";

/// One device under `/sys/block`, as its files read: each as its text, or
/// empty where it could not be read. `partitions` are the entries under it
/// that hold a `partition` file.
pub struct Block {
    pub name: String,
    pub size: String,
    pub ro: String,
    pub removable: String,
    pub model: String,
    pub partitions: Vec<String>,
}

/// Not disks anyone installs onto, and each one is only an option to get wrong.
pub open spec fn virtual_names() -> Seq<Seq<char>> {
    seq!["loop"@, "ram"@, "zram"@, "sr"@, "fd"@, "dm-"@, "md"@]
}

pub open spec fn is_virtual(name: Seq<char>) -> bool {
    exists|k: int| 0 <= k < virtual_names().len() && crate::text::is_prefix(#[trigger] virtual_names()[k], name)
}

/// What `/sys/block/<disk>/size` counts, or nothing where it says no number.
pub open spec fn sectors(b: Block) -> u64 {
    match u64_of(trim_spec(b.size@)) {
        Some(n) => n,
        None => 0,
    }
}

/// Whether `dev` is the source of a line of `/proc/mounts`.
pub open spec fn mounted_from(mounts: Seq<char>, dev: Seq<char>) -> bool {
    exists|k: int|
        0 <= k < lines_spec(mounts).len() && words_spec(#[trigger] lines_spec(mounts)[k]).len() > 0
            && words_spec(lines_spec(mounts)[k])[0] == dev
}

/// Whether the running system is already using the disk: it, or one of its
/// partitions, is mounted. On installer media that is the medium itself.
pub open spec fn in_use(b: Block, mounts: Seq<char>) -> bool {
    mounted_from(mounts, "/dev/"@ + b.name@) || exists|k: int|
        0 <= k < b.partitions@.len() && mounted_from(mounts, "/dev/"@ + #[trigger] b.partitions@[k]@)
}

/// Whether the device is offered: a whole disk with sectors, writable, and
/// not the one the running system uses.
pub open spec fn offered(b: Block, mounts: Seq<char>) -> bool {
    &&& !is_virtual(b.name@)
    &&& sectors(b) != 0
    &&& trim_spec(b.ro@) != "1"@
    &&& !in_use(b, mounts)
}

/// Its size in whole gigabytes, then its model and whether it is removable
/// where it says so, two spaces apart.
pub open spec fn detail(b: Block) -> Seq<char> {
    let gb = crate::text::decimal_spec(((sectors(b) * SECTOR) / 1_000_000_000) as nat) + " GB"@;
    let model = trim_spec(b.model@);
    let with_model = if model.len() > 0 { gb + "  "@ + model } else { gb };
    if trim_spec(b.removable@) == "1"@ { with_model + "  "@ + REMOVABLE@ } else { with_model }
}

pub open spec fn device(b: Block) -> Seq<char> {
    "/dev/"@ + b.name@
}

/// Whether the row is the one some device among the first `n` found gives.
pub open spec fn row_of(found: Seq<Block>, mounts: Seq<char>, row: (String, String), n: int) -> bool {
    exists|j: int|
        0 <= j < n && offered(#[trigger] found[j], mounts) && row.0@ == device(found[j]) && row.1@ == detail(found[j])
}

fn mounted(mounts: &Vec<String>, dev: &str) -> (r: bool)
    ensures
        r == exists|k: int| 0 <= k < mounts@.len() && words_spec(#[trigger] mounts@[k]@).len() > 0
            && words_spec(mounts@[k]@)[0] == dev@,
{
    let mut i: usize = 0;
    while i < mounts.len()
        invariant
            i <= mounts@.len(),
            forall|k: int| 0 <= k < i ==> !(words_spec(#[trigger] mounts@[k]@).len() > 0 && words_spec(mounts@[k]@)[0] == dev@),
        decreases mounts@.len() - i,
    {
        let ws = words(mounts[i].as_str());
        if ws.len() > 0 && same(ws[0].as_str(), dev) {
            assert(words_spec(mounts@[i as int]@)[0] == dev@);
            return true;
        }
        i = i + 1;
    }
    false
}

fn used(b: &Block, mounts: &Vec<String>, text: Ghost<Seq<char>>) -> (r: bool)
    requires
        crate::text::views(mounts@) == lines_spec(text@),
    ensures
        r == in_use(*b, text@),
{
    proof {
        assert forall|dev: Seq<char>| mounted_from(text@, dev) == exists|k: int| 0 <= k < mounts@.len()
            && words_spec(#[trigger] mounts@[k]@).len() > 0 && words_spec(mounts@[k]@)[0] == dev by {
            if mounted_from(text@, dev) {
                let k = choose|k: int| 0 <= k < lines_spec(text@).len() && words_spec(#[trigger] lines_spec(text@)[k]).len() > 0
                    && words_spec(lines_spec(text@)[k])[0] == dev;
                assert(mounts@[k]@ == lines_spec(text@)[k]);
            }
            if exists|k: int| 0 <= k < mounts@.len() && words_spec(#[trigger] mounts@[k]@).len() > 0
                && words_spec(mounts@[k]@)[0] == dev {
                let k = choose|k: int| 0 <= k < mounts@.len() && words_spec(#[trigger] mounts@[k]@).len() > 0
                    && words_spec(mounts@[k]@)[0] == dev;
                assert(lines_spec(text@)[k] == mounts@[k]@);
            }
        }
    }
    let whole = cat("/dev/", b.name.as_str());
    if mounted(mounts, whole.as_str()) {
        return true;
    }
    let mut i: usize = 0;
    while i < b.partitions.len()
        invariant
            i <= b.partitions@.len(),
            forall|k: int| 0 <= k < i ==> !mounted_from(text@, "/dev/"@ + #[trigger] b.partitions@[k]@),
            forall|dev: Seq<char>| mounted_from(text@, dev) == exists|k: int| 0 <= k < mounts@.len()
                && words_spec(#[trigger] mounts@[k]@).len() > 0 && words_spec(mounts@[k]@)[0] == dev,
        decreases b.partitions@.len() - i,
    {
        let dev = cat("/dev/", b.partitions[i].as_str());
        if mounted(mounts, dev.as_str()) {
            return true;
        }
        i = i + 1;
    }
    false
}

fn is_virtual_exec(name: &str) -> (r: bool)
    ensures
        r == is_virtual(name@),
{
    let names: [&str; 7] = ["loop", "ram", "zram", "sr", "fd", "dm-", "md"];
    proof {
        reveal_strlit("loop");
        reveal_strlit("ram");
        reveal_strlit("zram");
        reveal_strlit("sr");
        reveal_strlit("fd");
        reveal_strlit("dm-");
        reveal_strlit("md");
        assert(names@.map_values(|n: &str| n@) =~= virtual_names());
    }
    let mut k: usize = 0;
    while k < 7
        invariant
            k <= 7,
            names@.map_values(|n: &str| n@) == virtual_names(),
            forall|j: int| 0 <= j < k ==> !crate::text::is_prefix(#[trigger] virtual_names()[j], name@),
        decreases 7 - k,
    {
        assert(names@[k as int]@ == virtual_names()[k as int]);
        if starts_with(name, names[k]) {
            return true;
        }
        k = k + 1;
    }
    false
}

fn detail_of(b: &Block, n: u64) -> (r: String)
    requires
        n == sectors(*b),
    ensures
        r@ == detail(*b),
{
    let gb = decimal_wide((n as u128 * SECTOR) / 1_000_000_000);
    let head = cat(gb.as_str(), " GB");
    let model = trim(b.model.as_str());
    let with_model = if model.unicode_len() > 0 { cat3(head.as_str(), "  ", model.as_str()) } else { head };
    let removable = trim(b.removable.as_str());
    if same(removable.as_str(), "1") {
        cat3(with_model.as_str(), "  ", REMOVABLE)
    } else {
        with_model
    }
}

/// The whole disks found, with what a person needs to tell one from another
/// beside each, in the order of their device paths. `mounts` is what
/// `/proc/mounts` holds, which keeps the medium this runs from out of the list.
pub fn disks(found: &Vec<Block>, mounts: &str) -> (r: Vec<(String, String)>)
    ensures
        ascending(keys_of(r@)),
        forall|x: Seq<char>| #[trigger] keys_of(r@).contains(x) <==> exists|i: int|
            0 <= i < found@.len() && offered(#[trigger] found@[i], mounts@) && x == device(found@[i]),
        forall|k: int| 0 <= k < r@.len() ==> row_of(found@, mounts@, #[trigger] r@[k], found@.len() as int),
{
    let ls = lines(mounts);
    let mut out: Vec<(String, String)> = Vec::new();
    let mut i: usize = 0;
    while i < found.len()
        invariant
            i <= found@.len(),
            crate::text::views(ls@) == lines_spec(mounts@),
            ascending(keys_of(out@)),
            forall|x: Seq<char>| #[trigger] keys_of(out@).contains(x) <==> exists|j: int|
                0 <= j < i && offered(#[trigger] found@[j], mounts@) && x == device(found@[j]),
            forall|k: int| 0 <= k < out@.len() ==> row_of(found@, mounts@, #[trigger] out@[k], i as int),
        decreases found@.len() - i,
    {
        let b = &found[i];
        let n = match parse_u64(trim(b.size.as_str()).as_str()) {
            Some(n) => n,
            None => 0,
        };
        let ro = trim(b.ro.as_str());
        let keep = !is_virtual_exec(b.name.as_str()) && n != 0 && !same(ro.as_str(), "1")
            && !used(b, &ls, Ghost(mounts@));
        assert(keep == offered(found@[i as int], mounts@));
        if !keep {
            assert forall|k: int| 0 <= k < out@.len() implies row_of(found@, mounts@, #[trigger] out@[k], i + 1) by {
                assert(row_of(found@, mounts@, out@[k], i as int));
            }
        }
        if keep {
            let ghost before = out@;
            let path = cat("/dev/", b.name.as_str());
            let d = detail_of(b, n);
            let ghost e = (path, d);
            put(&mut out, path, d);
            proof {
                assert forall|x: Seq<char>| #[trigger] keys_of(out@).contains(x) <==> exists|j: int|
                    0 <= j < i + 1 && offered(#[trigger] found@[j], mounts@) && x == device(found@[j]) by {
                    if x == device(found@[i as int]) {
                        assert(offered(found@[i as int], mounts@));
                    }
                }
                assert forall|k: int| 0 <= k < out@.len() implies row_of(found@, mounts@, #[trigger] out@[k], i + 1) by {
                    if out@[k].0@ == device(found@[i as int]) {
                        assert(out@[k].1 == e.1);
                        assert(offered(found@[i as int], mounts@));
                    } else {
                        let w = choose|w: int| 0 <= w < before.len() && before[w] == out@[k];
                        assert(row_of(found@, mounts@, before[w], i as int));
                    }
                }
            }
        }
        i = i + 1;
    }
    out
}

} // verus!
