//! Aggregation of contributor lines into a global author table and a
//! per-repository contributor tally.

use vstd::prelude::*;
use crate::text::{
    spec_parse_contrib, spec_lines, views_of_strings, parse_contrib_line, split_lines, spec_trim,
    next_pos, lemma_next_pos, first_non_space, end_non_space, lemma_first_non_space,
    lemma_end_non_space,
};

verus! {

/// One author, with a per-repository commit-count table and two running
/// counters.
pub struct Person {
    pub name: String,
    /// Repository name to commit count; keys are unique.
    pub repos: Vec<(String, u32)>,
    /// Number of repositories contributed to.
    pub repo_count: u32,
    /// Total commits across all repositories.
    pub commit_count: u32,
}

pub struct PersonV {
    pub name: Seq<char>,
    pub repos: Seq<(Seq<char>, u32)>,
    pub repo_count: u32,
    pub commit_count: u32,
}

impl View for Person {
    type V = PersonV;

    open spec fn view(&self) -> PersonV {
        PersonV {
            name: self.name@,
            repos: self.repos@.map_values(|e: (String, u32)| (e.0@, e.1)),
            repo_count: self.repo_count,
            commit_count: self.commit_count,
        }
    }
}

/// One repository with the number of contributor lines found for it.
pub struct Repo {
    pub name: String,
    pub contributors: usize,
}

pub struct RepoV {
    pub name: Seq<char>,
    pub contributors: int,
}

impl View for Repo {
    type V = RepoV;

    open spec fn view(&self) -> RepoV {
        RepoV { name: self.name@, contributors: self.contributors as int }
    }
}

pub open spec fn views_of_people(v: Seq<Person>) -> Seq<PersonV> {
    v.map_values(|p: Person| p@)
}

pub open spec fn views_of_repo_list(v: Seq<Repo>) -> Seq<RepoV> {
    v.map_values(|p: Repo| p@)
}

pub open spec fn views_of_alias(v: Seq<(String, String)>) -> Seq<(Seq<char>, Seq<char>)> {
    v.map_values(|p: (String, String)| (p.0@, p.1@))
}

/// The canonical form of `name` under the alias table from position `k` on:
/// the replacement of the first exactly matching entry, or `name` itself.
pub open spec fn resolve_from(
    alias: Seq<(Seq<char>, Seq<char>)>,
    k: int,
    name: Seq<char>,
) -> Seq<char>
    decreases alias.len() - k,
{
    if k < 0 || k >= alias.len() {
        name
    } else if alias[k].0 == name {
        alias[k].1
    } else {
        resolve_from(alias, k + 1, name)
    }
}

/// The canonical form of `name` under the alias table.
pub open spec fn spec_resolve(alias: Seq<(Seq<char>, Seq<char>)>, name: Seq<char>) -> Seq<char> {
    resolve_from(alias, 0, name)
}

/// Substitution is exact-match only: a name that matches no alias key
/// letter for letter is returned unchanged.
pub proof fn lemma_alias_exact_match(alias: Seq<(Seq<char>, Seq<char>)>, name: Seq<char>)
    requires
        forall|i: int| 0 <= i < alias.len() ==> alias[i].0 != name,
    ensures
        spec_resolve(alias, name) == name,
{
    lemma_resolve_from_no_match(alias, 0, name);
}

proof fn lemma_resolve_from_no_match(
    alias: Seq<(Seq<char>, Seq<char>)>,
    k: int,
    name: Seq<char>,
)
    requires
        forall|i: int| 0 <= i < alias.len() ==> alias[i].0 != name,
    ensures
        resolve_from(alias, k, name) == name,
    decreases alias.len() - k,
{
    if 0 <= k < alias.len() {
        lemma_resolve_from_no_match(alias, k + 1, name);
    }
}

/// Look `name` up in the alias table, as [`spec_resolve`] describes.
pub fn resolve_alias(alias: &Vec<(String, String)>, name: &String) -> (r: String)
    ensures
        r@ == spec_resolve(views_of_alias(alias@), name@),
{
    let ghost av = views_of_alias(alias@);
    let mut k: usize = 0;
    while k < alias.len()
        invariant
            0 <= k <= alias@.len(),
            av == views_of_alias(alias@),
            spec_resolve(av, name@) == resolve_from(av, k as int, name@),
        decreases alias@.len() - k,
    {
        assert(av[k as int] == (alias@[k as int].0@, alias@[k as int].1@));
        if alias[k].0 == *name {
            return alias[k].1.clone();
        }
        k = k + 1;
    }
    name.clone()
}

/// The fixed alias table collapsing known-equivalent raw identities.
pub fn default_alias() -> (r: Vec<(String, String)>)
    ensures
        views_of_alias(r@) == seq![("phanen"@, "phanium"@)],
{
    let mut r: Vec<(String, String)> = Vec::new();
    r.push(("phanen".to_owned(), "phanium".to_owned()));
    proof {
        assert(views_of_alias(r@) =~= seq![("phanen"@, "phanium"@)]);
    }
    r
}

/// The first index whose person is called `name`, or `-1`.
pub open spec fn find_person_from(people: Seq<PersonV>, k: int, name: Seq<char>) -> int
    decreases people.len() - k,
{
    if k < 0 || k >= people.len() {
        -1
    } else if people[k].name == name {
        k
    } else {
        find_person_from(people, k + 1, name)
    }
}

pub open spec fn find_person(people: Seq<PersonV>, name: Seq<char>) -> int {
    find_person_from(people, 0, name)
}

/// The first index whose key is `key`, or `-1`.
pub open spec fn find_key_from(repos: Seq<(Seq<char>, u32)>, k: int, key: Seq<char>) -> int
    decreases repos.len() - k,
{
    if k < 0 || k >= repos.len() {
        -1
    } else if repos[k].0 == key {
        k
    } else {
        find_key_from(repos, k + 1, key)
    }
}

pub open spec fn find_key(repos: Seq<(Seq<char>, u32)>, key: Seq<char>) -> int {
    find_key_from(repos, 0, key)
}

/// Insert or overwrite the count for `key`, as a map insertion on a keyed
/// sequence: an existing key keeps its position, a new key goes at the end.
pub open spec fn upsert_key(
    repos: Seq<(Seq<char>, u32)>,
    key: Seq<char>,
    val: u32,
) -> Seq<(Seq<char>, u32)> {
    let i = find_key(repos, key);
    if i < 0 {
        repos.push((key, val))
    } else {
        repos.update(i, (key, val))
    }
}

/// Record one contributor line for author `name` in repository `repo`: a
/// first-time author starts an entry, then the repository count is inserted
/// or overwritten. The counters follow the retained entries: a new key
/// raises the distinct-repository counter by one and the commit counter by
/// `commits`; an overwritten key leaves the distinct-repository counter
/// alone and replaces the overwritten count in the commit counter. `None`
/// when a counter would leave the 32-bit range.
pub open spec fn spec_upsert(
    people: Seq<PersonV>,
    repo: Seq<char>,
    name: Seq<char>,
    commits: u32,
) -> Option<Seq<PersonV>> {
    let i = find_person(people, name);
    if i < 0 {
        Some(
            people.push(
                PersonV {
                    name: name,
                    repos: seq![(repo, commits)],
                    repo_count: 1,
                    commit_count: commits,
                },
            ),
        )
    } else {
        let p = people[i];
        let fk = find_key(p.repos, repo);
        if fk < 0 {
            if p.repo_count + 1 > u32::MAX || p.commit_count + commits > u32::MAX {
                None
            } else {
                Some(
                    people.update(
                        i,
                        PersonV {
                            name: p.name,
                            repos: upsert_key(p.repos, repo, commits),
                            repo_count: (p.repo_count + 1) as u32,
                            commit_count: (p.commit_count + commits) as u32,
                        },
                    ),
                )
            }
        } else {
            let total = p.commit_count - p.repos[fk].1 + commits;
            if total < 0 || total > u32::MAX {
                None
            } else {
                Some(
                    people.update(
                        i,
                        PersonV {
                            name: p.name,
                            repos: upsert_key(p.repos, repo, commits),
                            repo_count: p.repo_count,
                            commit_count: total as u32,
                        },
                    ),
                )
            }
        }
    }
}

/// Apply one contributor line to the author table, as [`spec_upsert`]
/// describes.
fn upsert_person(people: Vec<Person>, repo: &String, name: String, commits: u32) -> (r: Option<
    Vec<Person>,
>)
    ensures
        match r {
            Some(v) => spec_upsert(views_of_people(people@), repo@, name@, commits) == Some(
                views_of_people(v@),
            ),
            None => spec_upsert(views_of_people(people@), repo@, name@, commits) is None,
        },
{
    let ghost pv = views_of_people(people@);
    let mut tbl = people;
    let mut k: usize = 0;
    let n = tbl.len();
    while k < n
        invariant
            0 <= k <= tbl@.len(),
            n == tbl@.len(),
            pv == views_of_people(people@),
            pv == views_of_people(tbl@),
            find_person(pv, name@) == find_person_from(pv, k as int, name@),
        decreases tbl@.len() - k,
    {
        assert(pv[k as int] == tbl@[k as int]@);
        if tbl[k].name == name {
            assert(find_person(pv, name@) == k as int);
            let mut p = tbl.remove(k);
            assert(p@ == pv[k as int]);
            let ghost old_p = p@;
            let ghost rv = p@.repos;
            // Look for an existing entry under this repository's name.
            let mut j: usize = 0;
            let m = p.repos.len();
            while j < m && !(p.repos[j].0 == *repo)
                invariant
                    0 <= j <= m,
                    m == p@.repos.len(),
                    rv == p@.repos,
                    find_key(rv, repo@) == find_key_from(rv, j as int, repo@),
                decreases m - j,
            {
                assert(rv[j as int] == (p@.repos[j as int].0, p@.repos[j as int].1));
                j = j + 1;
            }
            if j < m {
                // Overwrite: the distinct-repository counter stands, the
                // commit counter replaces the overwritten count.
                assert(rv[j as int] == (p@.repos[j as int].0, p@.repos[j as int].1));
                assert(find_key(rv, repo@) == j as int);
                let old_val = p.repos[j].1;
                if p.commit_count >= old_val {
                    let rem = p.commit_count - old_val;
                    if commits > u32::MAX - rem {
                        return None;
                    }
                    p.commit_count = rem + commits;
                } else {
                    let deficit = old_val - p.commit_count;
                    if commits < deficit {
                        return None;
                    }
                    p.commit_count = commits - deficit;
                }
                let ghost before = p@.repos;
                p.repos[j] = (repo.clone(), commits);
                proof {
                    assert(p@.repos =~= before.update(j as int, (repo@, commits)));
                }
            } else {
                assert(find_key(rv, repo@) == -1);
                if p.repo_count == u32::MAX || commits > u32::MAX - p.commit_count {
                    return None;
                }
                p.repo_count = p.repo_count + 1;
                p.commit_count = p.commit_count + commits;
                let ghost before = p@.repos;
                p.repos.push((repo.clone(), commits));
                proof {
                    assert(p@.repos =~= before.push((repo@, commits)));
                }
            }
            assert(p@.repos == upsert_key(old_p.repos, repo@, commits));
            let ghost newp = p@;
            let ghost before_people = views_of_people(tbl@);
            tbl.insert(k, p);
            proof {
                assert(views_of_people(tbl@) =~= before_people.insert(k as int, newp));
                assert(pv =~= before_people.insert(k as int, old_p));
                assert(views_of_people(tbl@) =~= pv.update(k as int, newp));
            }
            return Some(tbl);
        }
        k = k + 1;
    }
    assert(find_person(pv, name@) == -1);
    let fresh = Person {
        name: name,
        repos: {
            let mut one: Vec<(String, u32)> = Vec::new();
            one.push((repo.clone(), commits));
            one
        },
        repo_count: 1,
        commit_count: commits,
    };
    let ghost fv = fresh@;
    proof {
        assert(fv.repos =~= seq![(repo@, commits)]);
    }
    let ghost before_people = views_of_people(tbl@);
    tbl.push(fresh);
    proof {
        assert(views_of_people(tbl@) =~= before_people.push(fv));
    }
    Some(tbl)
}

/// The effect of one line of output on the author table: a line without a
/// tab changes nothing and tallies nothing; any other line records its
/// count under the canonical author name and tallies one contributor.
pub open spec fn spec_apply_line(
    people: Seq<PersonV>,
    repo: Seq<char>,
    alias: Seq<(Seq<char>, Seq<char>)>,
    line: Seq<char>,
) -> Option<(Seq<PersonV>, bool)> {
    match spec_parse_contrib(line) {
        Option::None => Option::Some((people, false)),
        Option::Some(pair) => match spec_upsert(people, repo, spec_resolve(alias, pair.1), pair.0) {
            Option::None => Option::None,
            Option::Some(ps) => Option::Some((ps, true)),
        },
    }
}

/// Fold the lines from position `k` on into the table, carrying the
/// contributor tally.
pub open spec fn fold_lines_from(
    people: Seq<PersonV>,
    repo: Seq<char>,
    alias: Seq<(Seq<char>, Seq<char>)>,
    lines: Seq<Seq<char>>,
    k: int,
    tally: int,
) -> Option<(Seq<PersonV>, int)>
    decreases lines.len() - k,
{
    if k < 0 || k >= lines.len() {
        Option::Some((people, tally))
    } else {
        match spec_apply_line(people, repo, alias, lines[k]) {
            Option::None => Option::None,
            Option::Some(st) => fold_lines_from(
                st.0,
                repo,
                alias,
                lines,
                k + 1,
                tally + if st.1 {
                    1int
                } else {
                    0int
                },
            ),
        }
    }
}

/// The author table and contributor tally after one repository's output.
pub open spec fn spec_repo_history(
    people: Seq<PersonV>,
    repo: Seq<char>,
    alias: Seq<(Seq<char>, Seq<char>)>,
    output: Seq<char>,
) -> Option<(Seq<PersonV>, int)> {
    fold_lines_from(people, repo, alias, spec_lines(output), 0, 0)
}

/// Fold whole repositories from position `k` on: each one's output extends
/// the author table and appends one contributor summary.
pub open spec fn spec_aggregate_from(
    people: Seq<PersonV>,
    repos: Seq<RepoV>,
    names: Seq<Seq<char>>,
    outputs: Seq<Seq<char>>,
    alias: Seq<(Seq<char>, Seq<char>)>,
    k: int,
) -> Option<(Seq<PersonV>, Seq<RepoV>)>
    decreases names.len() - k,
{
    if k < 0 || k >= names.len() {
        Option::Some((people, repos))
    } else {
        match spec_repo_history(people, names[k], alias, outputs[k]) {
            Option::None => Option::None,
            Option::Some(st) => spec_aggregate_from(
                st.0,
                repos.push(RepoV { name: names[k], contributors: st.1 }),
                names,
                outputs,
                alias,
                k + 1,
            ),
        }
    }
}

/// The full aggregation: the author table and the per-repository
/// contributor summaries over all scanned repositories, in enumeration
/// order. `None` when an author counter would leave the 32-bit range.
pub open spec fn spec_aggregate(
    names: Seq<Seq<char>>,
    outputs: Seq<Seq<char>>,
    alias: Seq<(Seq<char>, Seq<char>)>,
) -> Option<(Seq<PersonV>, Seq<RepoV>)> {
    spec_aggregate_from(Seq::empty(), Seq::empty(), names, outputs, alias, 0)
}

/// Aggregate each repository's contributor-summary output into the global
/// author table and the per-repository tallies, as [`spec_aggregate`]
/// describes. `names` and `outputs` pair up index by index.
pub fn aggregate_history(
    names: &Vec<String>,
    outputs: &Vec<String>,
    alias: &Vec<(String, String)>,
) -> (r: Option<(Vec<Person>, Vec<Repo>)>)
    requires
        names@.len() == outputs@.len(),
    ensures
        match r {
            Some(pr) => spec_aggregate(
                views_of_strings(names@),
                views_of_strings(outputs@),
                views_of_alias(alias@),
            ) == Some((views_of_people(pr.0@), views_of_repo_list(pr.1@))),
            None => spec_aggregate(
                views_of_strings(names@),
                views_of_strings(outputs@),
                views_of_alias(alias@),
            ) is None,
        },
{
    let ghost nv = views_of_strings(names@);
    let ghost ov = views_of_strings(outputs@);
    let ghost av = views_of_alias(alias@);
    let mut people: Vec<Person> = Vec::new();
    let mut repo_list: Vec<Repo> = Vec::new();
    let mut i: usize = 0;
    proof {
        assert(views_of_people(people@) =~= Seq::<PersonV>::empty());
        assert(views_of_repo_list(repo_list@) =~= Seq::<RepoV>::empty());
    }
    while i < names.len()
        invariant
            0 <= i <= names@.len(),
            names@.len() == outputs@.len(),
            nv == views_of_strings(names@),
            ov == views_of_strings(outputs@),
            av == views_of_alias(alias@),
            spec_aggregate(nv, ov, av) == spec_aggregate_from(
                views_of_people(people@),
                views_of_repo_list(repo_list@),
                nv,
                ov,
                av,
                i as int,
            ),
        decreases names@.len() - i,
    {
        let ghost entry_people = views_of_people(people@);
        let ghost entry_repos = views_of_repo_list(repo_list@);
        proof {
            assert(ov[i as int] == outputs@[i as int]@);
            assert(nv[i as int] == names@[i as int]@);
        }
        let lines = split_lines(outputs[i].as_str());
        let mut tally: usize = 0;
        let mut k: usize = 0;
        while k < lines.len()
            invariant
                0 <= k <= lines@.len(),
                tally <= k,
                0 <= i < names@.len(),
                names@.len() == outputs@.len(),
                nv == views_of_strings(names@),
                ov == views_of_strings(outputs@),
                av == views_of_alias(alias@),
                nv[i as int] == names@[i as int]@,
                views_of_strings(lines@) == spec_lines(ov[i as int]),
                spec_repo_history(entry_people, nv[i as int], av, ov[i as int]) == fold_lines_from(
                    views_of_people(people@),
                    nv[i as int],
                    av,
                    views_of_strings(lines@),
                    k as int,
                    tally as int,
                ),
                spec_aggregate(nv, ov, av) == spec_aggregate_from(
                    entry_people,
                    views_of_repo_list(repo_list@),
                    nv,
                    ov,
                    av,
                    i as int,
                ),
            decreases lines@.len() - k,
        {
            assert(views_of_strings(lines@)[k as int] == lines@[k as int]@);
            let ghost line_v = lines@[k as int]@;
            match parse_contrib_line(lines[k].as_str()) {
                None => {
                    proof {
                        assert(spec_apply_line(views_of_people(people@), nv[i as int], av, line_v)
                            == Option::Some((views_of_people(people@), false)));
                    }
                },
                Some(cp) => {
                    let (commits, author) = cp;
                    let canon = resolve_alias(alias, &author);
                    let ghost before_people = views_of_people(people@);
                    let next = upsert_person(people, &names[i], canon, commits);
                    match next {
                        Some(v) => {
                            people = v;
                            proof {
                                assert(spec_apply_line(before_people, nv[i as int], av, line_v)
                                    == Option::Some((views_of_people(people@), true)));
                            }
                            tally = tally + 1;
                        },
                        None => {
                            proof {
                                assert(spec_apply_line(before_people, nv[i as int], av, line_v)
                                    is None);
                                assert(fold_lines_from(
                                    before_people,
                                    nv[i as int],
                                    av,
                                    views_of_strings(lines@),
                                    k as int,
                                    tally as int,
                                ) is None);
                                assert(spec_aggregate(nv, ov, av) is None);
                            }
                            return None;
                        },
                    }
                },
            }
            k = k + 1;
        }
        proof {
            assert(fold_lines_from(
                views_of_people(people@),
                nv[i as int],
                av,
                views_of_strings(lines@),
                k as int,
                tally as int,
            ) == Option::Some((views_of_people(people@), tally as int)));
        }
        let entry = Repo { name: names[i].clone(), contributors: tally };
        proof {
            let ghost old_repos = views_of_repo_list(repo_list@);
            assert(entry@ == RepoV { name: nv[i as int], contributors: tally as int });
            assert(views_of_repo_list(repo_list@.push(entry)) =~= old_repos.push(entry@));
        }
        repo_list.push(entry);
        i = i + 1;
    }
    proof {
        assert(spec_aggregate(nv, ov, av) == Option::Some(
            (views_of_people(people@), views_of_repo_list(repo_list@)),
        ));
    }
    Some((people, repo_list))
}

/// A line with no tab character is skipped whole: it changes no table
/// entry and adds nothing to the contributor tally.
pub proof fn lemma_line_without_tab(
    people: Seq<PersonV>,
    repo: Seq<char>,
    alias: Seq<(Seq<char>, Seq<char>)>,
    line: Seq<char>,
)
    requires
        forall|i: int| 0 <= i < line.len() ==> line[i] != '\t',
    ensures
        spec_parse_contrib(line) is None,
        spec_apply_line(people, repo, alias, line) == Some((people, false)),
{
    let t = spec_trim(line);
    let a = first_non_space(line, 0);
    let b = end_non_space(line, line.len() as int);
    lemma_first_non_space(line, 0);
    lemma_end_non_space(line, line.len() as int);
    lemma_next_pos(t, 0, '\t');
    let j = next_pos(t, 0, '\t');
    if j < t.len() {
        assert(a <= b);
        assert(t[j] == line[a + j]);
    }
}

/// The sum of the counts in an author's repository table.
pub open spec fn repos_total(repos: Seq<(Seq<char>, u32)>) -> int
    decreases repos.len(),
{
    if repos.len() == 0 {
        0
    } else {
        repos_total(repos.drop_last()) + repos.last().1
    }
}

/// An author record is consistent: the distinct-repository counter equals
/// the number of keys, the commit counter equals the sum of the counts,
/// and no key repeats.
pub open spec fn person_consistent(p: PersonV) -> bool {
    &&& p.repo_count == p.repos.len()
    &&& p.commit_count == repos_total(p.repos)
    &&& forall|a: int, b: int| 0 <= a < b < p.repos.len() ==> p.repos[a].0 != p.repos[b].0
}

/// A consistent table: distinct author names, each record consistent.
pub open spec fn table_wf(people: Seq<PersonV>) -> bool {
    &&& forall|i: int, j: int| 0 <= i < j < people.len() ==> people[i].name != people[j].name
    &&& forall|i: int| 0 <= i < people.len() ==> person_consistent(#[trigger] people[i])
}

/// Every key of every record of `people2` is `repo` or a key already
/// present in `people`.
pub open spec fn keys_extended(people: Seq<PersonV>, people2: Seq<PersonV>, repo: Seq<char>) -> bool {
    forall|i: int, a: int|
        0 <= i < people2.len() && 0 <= a < people2[i].repos.len() ==> (people2[i].repos[a].0 == repo
            || exists|i0: int, a0: int|
            0 <= i0 < people.len() && 0 <= a0 < people[i0].repos.len() && people[i0].repos[a0].0
                == people2[i].repos[a].0)
}

proof fn lemma_find_person_from_props(people: Seq<PersonV>, k: int, name: Seq<char>)
    requires
        0 <= k <= people.len(),
    ensures
        find_person_from(people, k, name) == -1 ==> forall|i: int|
            k <= i < people.len() ==> people[i].name != name,
        find_person_from(people, k, name) != -1 ==> k <= find_person_from(people, k, name)
            < people.len() && people[find_person_from(people, k, name)].name == name,
    decreases people.len() - k,
{
    if k < people.len() && people[k].name != name {
        lemma_find_person_from_props(people, k + 1, name);
    }
}

proof fn lemma_find_key_from_props(repos: Seq<(Seq<char>, u32)>, k: int, key: Seq<char>)
    requires
        0 <= k <= repos.len(),
    ensures
        find_key_from(repos, k, key) == -1 ==> forall|a: int|
            k <= a < repos.len() ==> repos[a].0 != key,
        find_key_from(repos, k, key) != -1 ==> k <= find_key_from(repos, k, key) < repos.len()
            && repos[find_key_from(repos, k, key)].0 == key,
    decreases repos.len() - k,
{
    if k < repos.len() && repos[k].0 != key {
        lemma_find_key_from_props(repos, k + 1, key);
    }
}

/// The total of a keyed sequence after one entry is overwritten.
proof fn lemma_repos_total_update(repos: Seq<(Seq<char>, u32)>, a: int, e: (Seq<char>, u32))
    requires
        0 <= a < repos.len(),
    ensures
        repos_total(repos.update(a, e)) == repos_total(repos) - repos[a].1 + e.1,
    decreases repos.len(),
{
    let u = repos.update(a, e);
    if a == repos.len() - 1 {
        assert(u.drop_last() =~= repos.drop_last());
        assert(u.last() == e);
    } else {
        assert(u.drop_last() =~= repos.drop_last().update(a, e));
        assert(u.last() == repos.last());
        lemma_repos_total_update(repos.drop_last(), a, e);
        assert(repos.drop_last()[a] == repos[a]);
    }
}

/// One successful upsert keeps the table consistent.
proof fn lemma_upsert_preserves(
    people: Seq<PersonV>,
    repo: Seq<char>,
    name: Seq<char>,
    commits: u32,
    people2: Seq<PersonV>,
)
    requires
        spec_upsert(people, repo, name, commits) == Some(people2),
        table_wf(people),
    ensures
        table_wf(people2),
{
    lemma_find_person_from_props(people, 0, name);
    let idx = find_person(people, name);
    if idx < 0 {
        let fresh = PersonV {
            name: name,
            repos: seq![(repo, commits)],
            repo_count: 1,
            commit_count: commits,
        };
        assert(people2 == people.push(fresh));
        assert(person_consistent(fresh)) by {
            assert(fresh.repos.drop_last() =~= Seq::<(Seq<char>, u32)>::empty());
            assert(repos_total(Seq::<(Seq<char>, u32)>::empty()) == 0);
            assert(fresh.repos.last() == (repo, commits));
            assert(repos_total(fresh.repos) == commits);
        }
        assert(forall|i: int| 0 <= i < people.len() ==> people2[i] == people[i]);
        assert(table_wf(people2)) by {
            assert(forall|i: int| 0 <= i < people.len() ==> people[i].name != name);
        }
    } else {
        let p = people[idx];
        assert(person_consistent(p));
        lemma_find_key_from_props(p.repos, 0, repo);
        let fk = find_key(p.repos, repo);
        if fk < 0 {
            let newp = PersonV {
                name: p.name,
                repos: p.repos.push((repo, commits)),
                repo_count: (p.repo_count + 1) as u32,
                commit_count: (p.commit_count + commits) as u32,
            };
            assert(people2 == people.update(idx, newp));
            assert(person_consistent(newp)) by {
                assert(newp.repos.drop_last() =~= p.repos);
                assert(newp.repos.last() == (repo, commits));
                assert(forall|a: int| 0 <= a < p.repos.len() ==> p.repos[a].0 != repo);
                assert(forall|a: int, b: int|
                    0 <= a < b < newp.repos.len() ==> newp.repos[a].0 != newp.repos[b].0) by {
                    assert(forall|a: int| 0 <= a < p.repos.len() ==> newp.repos[a] == p.repos[a]);
                }
            }
            assert(forall|i: int|
                0 <= i < people2.len() && i != idx ==> people2[i] == people[i]);
            assert(table_wf(people2));
        } else {
            assert(upsert_key(p.repos, repo, commits) == p.repos.update(fk, (repo, commits)));
            let newp = PersonV {
                name: p.name,
                repos: p.repos.update(fk, (repo, commits)),
                repo_count: p.repo_count,
                commit_count: (p.commit_count - p.repos[fk].1 + commits) as u32,
            };
            assert(people2 == people.update(idx, newp));
            lemma_repos_total_update(p.repos, fk, (repo, commits));
            assert(person_consistent(newp)) by {
                assert(newp.repos.len() == p.repos.len());
                assert(p.repos[fk].0 == repo);
                assert(forall|a: int|
                    0 <= a < p.repos.len() && a != fk ==> newp.repos[a] == p.repos[a]);
                assert(newp.repos[fk].0 == p.repos[fk].0);
            }
            assert(forall|i: int|
                0 <= i < people2.len() && i != idx ==> people2[i] == people[i]);
            assert(table_wf(people2));
        }
    }
}

/// Folding one repository's counted lines keeps the table consistent.
proof fn lemma_fold_lines_wf(
    people: Seq<PersonV>,
    repo: Seq<char>,
    alias: Seq<(Seq<char>, Seq<char>)>,
    lines: Seq<Seq<char>>,
    k: int,
    tally: int,
    res: (Seq<PersonV>, int),
)
    requires
        0 <= k <= lines.len(),
        fold_lines_from(people, repo, alias, lines, k, tally) == Some(res),
        table_wf(people),
    ensures
        table_wf(res.0),
    decreases lines.len() - k,
{
    if k < lines.len() {
        match spec_parse_contrib(lines[k]) {
            Option::None => {
                lemma_fold_lines_wf(people, repo, alias, lines, k + 1, tally, res);
            },
            Option::Some(pair) => {
                let who = spec_resolve(alias, pair.1);
                let st = spec_apply_line(people, repo, alias, lines[k]);
                let people2 = st.unwrap().0;
                assert(spec_upsert(people, repo, who, pair.0) == Some(people2));
                lemma_upsert_preserves(people, repo, who, pair.0, people2);
                lemma_fold_lines_wf(
                    people2,
                    repo,
                    alias,
                    lines,
                    k + 1,
                    tally + if st.unwrap().1 {
                        1int
                    } else {
                        0int
                    },
                    res,
                );
            },
        }
    }
}

/// Folding whole repositories keeps the table consistent.
proof fn lemma_aggregate_wf_from(
    people: Seq<PersonV>,
    repos: Seq<RepoV>,
    names: Seq<Seq<char>>,
    outputs: Seq<Seq<char>>,
    alias: Seq<(Seq<char>, Seq<char>)>,
    k: int,
    res: (Seq<PersonV>, Seq<RepoV>),
)
    requires
        0 <= k <= names.len(),
        spec_aggregate_from(people, repos, names, outputs, alias, k) == Some(res),
        table_wf(people),
    ensures
        table_wf(res.0),
    decreases names.len() - k,
{
    if k < names.len() {
        let repo = names[k];
        let st = spec_repo_history(people, repo, alias, outputs[k]);
        lemma_fold_lines_wf(people, repo, alias, spec_lines(outputs[k]), 0, 0, (
            st.unwrap().0,
            st.unwrap().1,
        ));
        lemma_aggregate_wf_from(
            st.unwrap().0,
            repos.push(RepoV { name: repo, contributors: st.unwrap().1 }),
            names,
            outputs,
            alias,
            k + 1,
            res,
        );
    }
}

proof fn lemma_upsert_keys(
    people: Seq<PersonV>,
    repo: Seq<char>,
    name: Seq<char>,
    commits: u32,
    people2: Seq<PersonV>,
)
    requires
        spec_upsert(people, repo, name, commits) == Some(people2),
    ensures
        keys_extended(people, people2, repo),
{
    lemma_find_person_from_props(people, 0, name);
    let idx = find_person(people, name);
    if idx < 0 {
        assert(forall|i: int| 0 <= i < people.len() ==> people2[i] == people[i]);
        assert(people2[people.len() as int].repos =~= seq![(repo, commits)]);
    } else {
        let p = people[idx];
        assert(forall|i: int| 0 <= i < people2.len() && i != idx ==> people2[i] == people[i]);
        let fk = find_key(p.repos, repo);
        if fk < 0 {
            assert(forall|a: int|
                0 <= a < p.repos.len() ==> people2[idx].repos[a] == p.repos[a]);
            assert(people2[idx].repos.last().0 == repo);
        } else {
            lemma_find_key_from_props(p.repos, 0, repo);
            assert(forall|a: int|
                0 <= a < p.repos.len() && a != fk ==> people2[idx].repos[a] == p.repos[a]);
            assert(people2[idx].repos[fk].0 == repo);
        }
    }
}

proof fn lemma_fold_lines_keys(
    people: Seq<PersonV>,
    repo: Seq<char>,
    alias: Seq<(Seq<char>, Seq<char>)>,
    lines: Seq<Seq<char>>,
    k: int,
    tally: int,
    res: (Seq<PersonV>, int),
)
    requires
        0 <= k <= lines.len(),
        fold_lines_from(people, repo, alias, lines, k, tally) == Some(res),
    ensures
        keys_extended(people, res.0, repo),
    decreases lines.len() - k,
{
    if k >= lines.len() {
        assert(res.0 == people);
    } else {
        match spec_parse_contrib(lines[k]) {
            Option::None => {
                lemma_fold_lines_keys(people, repo, alias, lines, k + 1, tally, res);
            },
            Option::Some(pair) => {
                let who = spec_resolve(alias, pair.1);
                let st = spec_apply_line(people, repo, alias, lines[k]);
                let people2 = st.unwrap().0;
                lemma_upsert_keys(people, repo, who, pair.0, people2);
                lemma_fold_lines_keys(
                    people2,
                    repo,
                    alias,
                    lines,
                    k + 1,
                    tally + if st.unwrap().1 {
                        1int
                    } else {
                        0int
                    },
                    res,
                );
            },
        }
    }
}

/// Every key of every record of `people` names one of the scanned
/// repositories.
pub open spec fn keys_among(people: Seq<PersonV>, names: Seq<Seq<char>>) -> bool {
    forall|i: int, a: int|
        0 <= i < people.len() && 0 <= a < people[i].repos.len() ==> names.contains(
            #[trigger] people[i].repos[a].0,
        )
}

proof fn lemma_aggregate_keys_from(
    people: Seq<PersonV>,
    repos: Seq<RepoV>,
    names: Seq<Seq<char>>,
    outputs: Seq<Seq<char>>,
    alias: Seq<(Seq<char>, Seq<char>)>,
    k: int,
    res: (Seq<PersonV>, Seq<RepoV>),
)
    requires
        0 <= k <= names.len(),
        names.len() == outputs.len(),
        spec_aggregate_from(people, repos, names, outputs, alias, k) == Some(res),
        keys_among(people, names),
    ensures
        keys_among(res.0, names),
        res.1.len() == repos.len() + names.len() - k,
        forall|j: int| 0 <= j < repos.len() ==> res.1[j] == repos[j],
        forall|j: int|
            repos.len() <= j < res.1.len() ==> res.1[j].name == names[k + j - repos.len()],
    decreases names.len() - k,
{
    if k >= names.len() {
        assert(res == (people, repos));
    } else {
        let repo = names[k];
        let st = spec_repo_history(people, repo, alias, outputs[k]);
        let people2 = st.unwrap().0;
        lemma_fold_lines_keys(people, repo, alias, spec_lines(outputs[k]), 0, 0, (
            people2,
            st.unwrap().1,
        ));
        assert(keys_among(people2, names)) by {
            assert(names.contains(repo)) by {
                assert(names[k] == repo);
            }
        }
        let pushed = repos.push(RepoV { name: repo, contributors: st.unwrap().1 });
        lemma_aggregate_keys_from(people2, pushed, names, outputs, alias, k + 1, res);
        assert(forall|j: int| 0 <= j < repos.len() ==> pushed[j] == repos[j]);
        assert(pushed[repos.len() as int].name == repo);
        assert(forall|j: int|
            repos.len() <= j < res.1.len() ==> res.1[j].name == names[k + j - repos.len()]) by {
            assert(res.1[repos.len() as int] == pushed[repos.len() as int]);
            assert(forall|j: int|
                pushed.len() <= j < res.1.len() ==> res.1[j].name == names[k + 1 + j
                    - pushed.len()]);
        }
    }
}

/// The repository summaries name exactly the scanned repositories, in
/// enumeration order, and every repository key in the author table names a
/// scanned repository: a directory the scanner left out appears nowhere in
/// the aggregation's results.
pub proof fn lemma_outputs_name_only_scanned(
    names: Seq<Seq<char>>,
    outputs: Seq<Seq<char>>,
    alias: Seq<(Seq<char>, Seq<char>)>,
    tbl: Seq<PersonV>,
    reps: Seq<RepoV>,
)
    requires
        names.len() == outputs.len(),
        spec_aggregate(names, outputs, alias) == Some((tbl, reps)),
    ensures
        reps.len() == names.len(),
        forall|j: int| 0 <= j < reps.len() ==> reps[j].name == names[j],
        keys_among(tbl, names),
{
    let nobody = Seq::<PersonV>::empty();
    lemma_aggregate_keys_from(
        nobody,
        Seq::<RepoV>::empty(),
        names,
        outputs,
        alias,
        0,
        (tbl, reps),
    );
}

/// For every author record the aggregation produces, `repo_count` equals
/// the number of keys in the record's repository table, `commit_count`
/// equals the sum of the counts there, and no key repeats.
pub proof fn lemma_author_counters_consistent(
    names: Seq<Seq<char>>,
    outputs: Seq<Seq<char>>,
    alias: Seq<(Seq<char>, Seq<char>)>,
    tbl: Seq<PersonV>,
    reps: Seq<RepoV>,
)
    requires
        spec_aggregate(names, outputs, alias) == Some((tbl, reps)),
    ensures
        forall|i: int| 0 <= i < tbl.len() ==> person_consistent(#[trigger] tbl[i]),
{
    let nobody = Seq::<PersonV>::empty();
    assert(table_wf(nobody));
    lemma_aggregate_wf_from(
        nobody,
        Seq::<RepoV>::empty(),
        names,
        outputs,
        alias,
        0,
        (tbl, reps),
    );
}

} // verus!
