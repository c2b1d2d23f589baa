use plugin_stats::scan::{ScanEntry, select_repo_dirs, default_ignore};
use plugin_stats::history::{Repo, aggregate_history};
use plugin_stats::order::{sort_repos_desc, sort_dates_asc};
use plugin_stats::dates::date_record;

fn entry(name: &str, is_dir: bool, has_vcs_dir: bool) -> ScanEntry {
    ScanEntry {
        name: name.to_string(),
        path: format!("/base/{}", name),
        is_dir,
        has_vcs_dir,
    }
}

#[test]
fn ignored_name_is_excluded_despite_metadata() {
    let entries = vec![entry("fzf", true, true), entry("plug", true, true)];
    let kept = select_repo_dirs(&entries, &default_ignore());
    assert!(kept.len() == 1);
    assert!(kept[0].0 == "plug");
    assert!(kept[0].1 == "/base/plug");
    assert!(kept.iter().all(|p| p.0 != "fzf"));
}

#[test]
fn directory_without_metadata_is_excluded() {
    let entries = vec![
        entry("bare", true, false),
        entry("file", false, false),
        entry("real", true, true),
    ];
    let ignore: Vec<String> = Vec::new();
    let kept = select_repo_dirs(&entries, &ignore);
    assert!(kept.len() == 1);
    assert!(kept[0].0 == "real");
}

#[test]
fn ignore_set_holds_the_nine_fixed_names() {
    let ignore = default_ignore();
    assert!(ignore.len() == 9);
    for name in [
        "lazy.nvim", "fzf", "lazygit", "fish-shell", "kitty", "inline", "nushell", "atuin",
        "zignvim",
    ] {
        assert!(ignore.iter().any(|s| s == name));
    }
}

#[test]
fn summaries_sort_descending_by_contributors() {
    let list = vec![
        Repo { name: "A".to_string(), contributors: 3 },
        Repo { name: "B".to_string(), contributors: 1 },
        Repo { name: "C".to_string(), contributors: 5 },
    ];
    let sorted = sort_repos_desc(list);
    let names: Vec<&str> = sorted.iter().map(|r| r.name.as_str()).collect();
    assert!(names == ["C", "A", "B"]);
}

#[test]
fn equal_contributor_counts_keep_enumeration_order() {
    let list = vec![
        Repo { name: "X".to_string(), contributors: 2 },
        Repo { name: "Y".to_string(), contributors: 2 },
        Repo { name: "Z".to_string(), contributors: 7 },
    ];
    let sorted = sort_repos_desc(list);
    let names: Vec<&str> = sorted.iter().map(|r| r.name.as_str()).collect();
    assert!(names == ["Z", "X", "Y"]);
}

#[test]
fn derived_time_matches_the_instant() {
    let rec = date_record("repo".to_string(), "Fri Jan 31 10:39:15 2014 -0300");
    assert!(rec.time == 1391175555);
    assert!(rec.date == "Fri Jan 31 10:39:15 2014 -0300");
}

#[test]
fn raw_date_is_trimmed_but_kept_when_unparseable() {
    let rec = date_record("repo".to_string(), "  not a date \n");
    assert!(rec.time == 0);
    assert!(rec.date == "not a date");
    let empty = date_record("repo".to_string(), "");
    assert!(empty.time == 0);
    assert!(empty.date == "");
}

#[test]
fn unparseable_dates_sort_first() {
    let parsed = date_record("b".to_string(), "Fri Jan 31 10:39:15 2014 -0300");
    let unparsed = date_record("a".to_string(), "garbage");
    let sorted = sort_dates_asc(vec![parsed, unparsed]);
    assert!(sorted[0].name == "a" && sorted[0].time == 0);
    assert!(sorted[1].name == "b" && sorted[1].time != 0);
}

#[test]
fn equal_times_keep_enumeration_order() {
    let one = date_record("one".to_string(), "junk");
    let two = date_record("two".to_string(), "other junk");
    let sorted = sort_dates_asc(vec![one, two]);
    assert!(sorted[0].name == "one");
    assert!(sorted[1].name == "two");
}

#[test]
fn rerun_over_unchanged_inputs_is_identical() {
    let names = vec!["r1".to_string(), "r2".to_string()];
    let outputs = vec!["3\tAlice\n2\tBob\n".to_string(), "1\tAlice\n".to_string()];
    let alias: Vec<(String, String)> = Vec::new();
    let (people1, repos1) = aggregate_history(&names, &outputs, &alias).expect("no overflow");
    let (people2, repos2) = aggregate_history(&names, &outputs, &alias).expect("no overflow");
    assert!(people1.len() == people2.len());
    for (a, b) in people1.iter().zip(people2.iter()) {
        assert!(a.name == b.name);
        assert!(a.repo_count == b.repo_count);
        assert!(a.commit_count == b.commit_count);
        assert!(a.repos == b.repos);
    }
    let s1 = sort_repos_desc(repos1);
    let s2 = sort_repos_desc(repos2);
    assert!(s1.len() == s2.len());
    for (a, b) in s1.iter().zip(s2.iter()) {
        assert!(a.name == b.name && a.contributors == b.contributors);
    }
    let d1 = sort_dates_asc(vec![date_record("r1".to_string(), "x"), date_record(
        "r2".to_string(),
        "Fri Jan 31 10:39:15 2014 -0300",
    )]);
    let d2 = sort_dates_asc(vec![date_record("r1".to_string(), "x"), date_record(
        "r2".to_string(),
        "Fri Jan 31 10:39:15 2014 -0300",
    )]);
    for (a, b) in d1.iter().zip(d2.iter()) {
        assert!(a.name == b.name && a.date == b.date && a.time == b.time);
    }
}
