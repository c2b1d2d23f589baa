//! Selection of candidate repositories among the immediate entries of the
//! base directory: a fixed set of names is ignored, and an entry qualifies
//! only when it is a directory holding version-control metadata.

use vstd::prelude::*;
use crate::text::views_of_strings;

verus! {

/// What the caller learned about one immediate entry of the base directory.
pub struct ScanEntry {
    pub name: String,
    pub path: String,
    pub is_dir: bool,
    /// Whether the entry holds a version-control metadata subdirectory.
    pub has_vcs_dir: bool,
}

pub struct ScanEntryV {
    pub name: Seq<char>,
    pub path: Seq<char>,
    pub is_dir: bool,
    pub has_vcs_dir: bool,
}

impl View for ScanEntry {
    type V = ScanEntryV;

    open spec fn view(&self) -> ScanEntryV {
        ScanEntryV {
            name: self.name@,
            path: self.path@,
            is_dir: self.is_dir,
            has_vcs_dir: self.has_vcs_dir,
        }
    }
}

pub open spec fn views_of_entries(v: Seq<ScanEntry>) -> Seq<ScanEntryV> {
    v.map_values(|e: ScanEntry| e@)
}

pub open spec fn views_of_pairs(v: Seq<(String, String)>) -> Seq<(Seq<char>, Seq<char>)> {
    v.map_values(|p: (String, String)| (p.0@, p.1@))
}

/// An entry is kept when its name is not ignored, it is a directory, and it
/// holds version-control metadata.
pub open spec fn keep_entry(e: ScanEntryV, ignore: Seq<Seq<char>>) -> bool {
    !ignore.contains(e.name) && e.is_dir && e.has_vcs_dir
}

/// The (name, path) pairs of the kept entries from position `k` on, in
/// enumeration order.
pub open spec fn select_from(entries: Seq<ScanEntryV>, ignore: Seq<Seq<char>>, k: int) -> Seq<
    (Seq<char>, Seq<char>),
>
    decreases entries.len() - k,
{
    if k < 0 || k >= entries.len() {
        Seq::empty()
    } else {
        let rest = select_from(entries, ignore, k + 1);
        if keep_entry(entries[k], ignore) {
            seq![(entries[k].name, entries[k].path)] + rest
        } else {
            rest
        }
    }
}

/// The (name, path) pairs of all kept entries, in enumeration order.
pub open spec fn spec_select(entries: Seq<ScanEntryV>, ignore: Seq<Seq<char>>) -> Seq<
    (Seq<char>, Seq<char>),
> {
    select_from(entries, ignore, 0)
}

/// Whether `s` occurs in `v`.
pub fn contains_string(v: &Vec<String>, s: &String) -> (r: bool)
    ensures
        r == views_of_strings(v@).contains(s@),
{
    let mut i: usize = 0;
    while i < v.len()
        invariant
            0 <= i <= v@.len(),
            forall|q: int| 0 <= q < i ==> views_of_strings(v@)[q] != s@,
        decreases v@.len() - i,
    {
        if v[i] == *s {
            assert(views_of_strings(v@)[i as int] == s@);
            return true;
        }
        i = i + 1;
    }
    assert(!views_of_strings(v@).contains(s@));
    false
}

/// Keep the qualifying entries, as [`spec_select`] describes.
pub fn select_repo_dirs(entries: &Vec<ScanEntry>, ignore: &Vec<String>) -> (r: Vec<
    (String, String),
>)
    ensures
        views_of_pairs(r@) == spec_select(views_of_entries(entries@), views_of_strings(ignore@)),
{
    let ghost ev = views_of_entries(entries@);
    let ghost iv = views_of_strings(ignore@);
    let mut r: Vec<(String, String)> = Vec::new();
    let mut k: usize = 0;
    proof {
        assert(views_of_pairs(r@) =~= Seq::<(Seq<char>, Seq<char>)>::empty());
    }
    while k < entries.len()
        invariant
            0 <= k <= entries@.len(),
            ev == views_of_entries(entries@),
            iv == views_of_strings(ignore@),
            spec_select(ev, iv) == views_of_pairs(r@) + select_from(ev, iv, k as int),
        decreases entries@.len() - k,
    {
        let e = &entries[k];
        assert(ev[k as int] == e@);
        if !contains_string(ignore, &e.name) && e.is_dir && e.has_vcs_dir {
            let pair = (e.name.clone(), e.path.clone());
            proof {
                let ghost old_views = views_of_pairs(r@);
                assert(views_of_pairs(r@.push(pair)) =~= old_views.push((e.name@, e.path@)));
                assert(old_views.push((e.name@, e.path@)) + select_from(ev, iv, k + 1) =~= old_views
                    + select_from(ev, iv, k as int));
            }
            r.push(pair);
        }
        k = k + 1;
    }
    proof {
        assert(select_from(ev, iv, k as int) =~= Seq::<(Seq<char>, Seq<char>)>::empty());
        assert(views_of_pairs(r@) =~= spec_select(ev, iv));
    }
    r
}

proof fn lemma_excluded_from(
    entries: Seq<ScanEntryV>,
    ignore: Seq<Seq<char>>,
    name: Seq<char>,
    k: int,
)
    requires
        forall|i: int|
            0 <= i < entries.len() && entries[i].name == name ==> !keep_entry(entries[i], ignore),
    ensures
        forall|j: int|
            0 <= j < select_from(entries, ignore, k).len() ==> select_from(
                entries,
                ignore,
                k,
            )[j].0 != name,
    decreases entries.len() - k,
{
    if 0 <= k < entries.len() {
        lemma_excluded_from(entries, ignore, name, k + 1);
        let rest = select_from(entries, ignore, k + 1);
        if keep_entry(entries[k], ignore) {
            assert(entries[k].name != name);
            let whole = seq![(entries[k].name, entries[k].path)] + rest;
            assert(forall|j: int| 0 <= j < whole.len() ==> whole[j].0 != name) by {
                assert(forall|j: int| 1 <= j < whole.len() ==> whole[j] == rest[j - 1]);
            }
        }
    }
}

/// A name on the ignore list never reaches the scanner's output, whatever
/// the entry that carries it holds.
pub proof fn lemma_ignored_name_excluded(
    entries: Seq<ScanEntryV>,
    ignore: Seq<Seq<char>>,
    name: Seq<char>,
)
    requires
        ignore.contains(name),
    ensures
        forall|j: int|
            0 <= j < spec_select(entries, ignore).len() ==> spec_select(entries, ignore)[j].0
                != name,
{
    lemma_excluded_from(entries, ignore, name, 0);
}

/// A directory without version-control metadata never reaches the scanner's
/// output.
pub proof fn lemma_no_metadata_excluded(
    entries: Seq<ScanEntryV>,
    ignore: Seq<Seq<char>>,
    name: Seq<char>,
)
    requires
        forall|i: int|
            0 <= i < entries.len() && entries[i].name == name ==> !entries[i].has_vcs_dir,
    ensures
        forall|j: int|
            0 <= j < spec_select(entries, ignore).len() ==> spec_select(entries, ignore)[j].0
                != name,
{
    lemma_excluded_from(entries, ignore, name, 0);
}

/// The fixed set of directory names that the scanner leaves out.
pub fn default_ignore() -> (r: Vec<String>)
    ensures
        views_of_strings(r@) == seq![
            "lazy.nvim"@,
            "fzf"@,
            "lazygit"@,
            "fish-shell"@,
            "kitty"@,
            "inline"@,
            "nushell"@,
            "atuin"@,
            "zignvim"@,
        ],
{
    let mut r: Vec<String> = Vec::new();
    r.push("lazy.nvim".to_owned());
    r.push("fzf".to_owned());
    r.push("lazygit".to_owned());
    r.push("fish-shell".to_owned());
    r.push("kitty".to_owned());
    r.push("inline".to_owned());
    r.push("nushell".to_owned());
    r.push("atuin".to_owned());
    r.push("zignvim".to_owned());
    proof {
        assert(views_of_strings(r@) =~= seq![
            "lazy.nvim"@,
            "fzf"@,
            "lazygit"@,
            "fish-shell"@,
            "kitty"@,
            "inline"@,
            "nushell"@,
            "atuin"@,
            "zignvim"@,
        ]);
    }
    r
}

} // verus!
