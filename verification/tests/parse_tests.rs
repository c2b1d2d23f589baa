use plugin_stats::text::parse_contrib_line;
use plugin_stats::history::{aggregate_history, default_alias, resolve_alias};

#[test]
fn whitespace_variation_parses_identically() {
    let a = parse_contrib_line(" 12\tAlice ");
    let b = parse_contrib_line("12\tAlice");
    let (ca, na) = a.expect("padded line should parse");
    let (cb, nb) = b.expect("bare line should parse");
    assert!(ca == 12 && na == "Alice");
    assert!(cb == 12 && nb == "Alice");
}

#[test]
fn line_without_tab_yields_nothing() {
    assert!(parse_contrib_line("no tab here").is_none());
    assert!(parse_contrib_line("").is_none());
    // The only tab is removed by trimming, so nothing is left to split on.
    assert!(parse_contrib_line(" \t ").is_none());
}

#[test]
fn nonnumeric_count_parses_as_zero() {
    let (c, n) = parse_contrib_line("x\tAlice").expect("line with tab should parse");
    assert!(c == 0);
    assert!(n == "Alice");
}

#[test]
fn count_with_plus_sign_is_accepted() {
    let (c, n) = parse_contrib_line("+12\tBob").expect("should parse");
    assert!(c == 12);
    assert!(n == "Bob");
}

#[test]
fn count_side_is_trimmed_before_parsing() {
    let (c, _) = parse_contrib_line("12 \tAlice").expect("should parse");
    assert!(c == 12);
}

#[test]
fn count_with_inner_space_is_zero() {
    let (c, _) = parse_contrib_line("1 2\tAlice").expect("should parse");
    assert!(c == 0);
}

#[test]
fn whitespace_set_matches_the_unicode_property() {
    for u in 0..=0x10ffffu32 {
        if let Some(c) = char::from_u32(u) {
            assert!(plugin_stats::text::is_space_char(c) == c.is_whitespace());
        }
    }
}

#[test]
fn alias_collision_keeps_counters_consistent() {
    // Two raw identities of one author in a single repository collapse to
    // one canonical name; the counters follow the retained table entry.
    let names = vec!["repo".to_string()];
    let outputs = vec!["1\tphanen\n2\tphanium\n".to_string()];
    let (people, repos) = aggregate_history(&names, &outputs, &default_alias()).expect("no overflow");
    assert!(people.len() == 1);
    let p = &people[0];
    assert!(p.name == "phanium");
    assert!(p.repos.len() == 1);
    assert!(p.repos[0].0 == "repo" && p.repos[0].1 == 2);
    assert!(p.repo_count == 1);
    assert!(p.commit_count == 2);
    // The per-repository tally still counts raw contributor lines.
    assert!(repos[0].contributors == 2);
}

#[test]
fn count_overflowing_32_bits_is_zero() {
    let (c, _) = parse_contrib_line("99999999999\tAlice").expect("should parse");
    assert!(c == 0);
    let (c2, _) = parse_contrib_line("4294967295\tAlice").expect("should parse");
    assert!(c2 == u32::MAX);
    let (c3, _) = parse_contrib_line("4294967296\tAlice").expect("should parse");
    assert!(c3 == 0);
}

#[test]
fn author_name_is_trimmed() {
    let (c, n) = parse_contrib_line("3\t  Carol  ").expect("should parse");
    assert!(c == 3);
    assert!(n == "Carol");
}

#[test]
fn alias_substitution_is_exact_match_only() {
    let alias = vec![("Alice ".to_string(), "X".to_string())];
    let kept = resolve_alias(&alias, &"Alice".to_string());
    assert!(kept == "Alice");
    let default = default_alias();
    let swapped = resolve_alias(&default, &"phanen".to_string());
    assert!(swapped == "phanium");
    let untouched = resolve_alias(&default, &"phanen ".to_string());
    assert!(untouched == "phanen ");
}

#[test]
fn aliased_line_lands_under_canonical_name() {
    let names = vec!["repo".to_string()];
    let outputs = vec!["5\tphanen\n".to_string()];
    let (people, _) = aggregate_history(&names, &outputs, &default_alias()).expect("no overflow");
    assert!(people.len() == 1);
    assert!(people[0].name == "phanium");
    assert!(people[0].commit_count == 5);
}

#[test]
fn author_counters_stay_consistent() {
    let names = vec!["r1".to_string(), "r2".to_string()];
    let outputs = vec!["3\tAlice\n2\tBob\n".to_string(), "1\tAlice\n".to_string()];
    let alias: Vec<(String, String)> = Vec::new();
    let (people, repos) = aggregate_history(&names, &outputs, &alias).expect("no overflow");
    assert!(people.len() == 2);
    for p in &people {
        assert!(p.repo_count as usize == p.repos.len());
        let total: u64 = p.repos.iter().map(|e| e.1 as u64).sum();
        assert!(p.commit_count as u64 == total);
    }
    let alice = &people[0];
    assert!(alice.name == "Alice");
    assert!(alice.repo_count == 2 && alice.commit_count == 4);
    assert!(alice.repos[0].0 == "r1" && alice.repos[0].1 == 3);
    assert!(alice.repos[1].0 == "r2" && alice.repos[1].1 == 1);
    let bob = &people[1];
    assert!(bob.name == "Bob");
    assert!(bob.repo_count == 1 && bob.commit_count == 2);
    assert!(repos.len() == 2);
    assert!(repos[0].name == "r1" && repos[0].contributors == 2);
    assert!(repos[1].name == "r2" && repos[1].contributors == 1);
}

#[test]
fn tabless_line_counts_nobody() {
    let names = vec!["repo".to_string()];
    let outputs = vec!["just words\n".to_string()];
    let alias: Vec<(String, String)> = Vec::new();
    let (people, repos) = aggregate_history(&names, &outputs, &alias).expect("no overflow");
    assert!(people.is_empty());
    assert!(repos.len() == 1);
    assert!(repos[0].contributors == 0);
}

#[test]
fn nonnumeric_count_still_creates_the_entry() {
    let names = vec!["repo".to_string()];
    let outputs = vec!["x\tAlice\n".to_string()];
    let alias: Vec<(String, String)> = Vec::new();
    let (people, repos) = aggregate_history(&names, &outputs, &alias).expect("no overflow");
    assert!(people.len() == 1);
    assert!(people[0].name == "Alice");
    assert!(people[0].commit_count == 0);
    assert!(people[0].repo_count == 1);
    assert!(people[0].repos[0].1 == 0);
    assert!(repos[0].contributors == 1);
}

#[test]
fn empty_output_keeps_table_empty() {
    let names = vec!["repo".to_string()];
    let outputs = vec![String::new()];
    let alias: Vec<(String, String)> = Vec::new();
    let (people, repos) = aggregate_history(&names, &outputs, &alias).expect("no overflow");
    assert!(people.is_empty());
    assert!(repos.len() == 1 && repos[0].contributors == 0);
}

#[test]
fn blank_lines_between_records_are_skipped() {
    let names = vec!["repo".to_string()];
    let outputs = vec!["3\tA\n\n2\tB\n".to_string()];
    let alias: Vec<(String, String)> = Vec::new();
    let (people, repos) = aggregate_history(&names, &outputs, &alias).expect("no overflow");
    assert!(people.len() == 2);
    assert!(repos[0].contributors == 2);
}
