//! Ordering of the two output lists: repository summaries descending by
//! contributor count, first-commit records ascending by epoch seconds.
//! Both sorts are stable: entries with equal keys keep their enumeration
//! order.

use vstd::prelude::*;
use crate::history::{Repo, RepoV, views_of_repo_list, spec_aggregate};
use crate::dates::{RepoDate, RepoDateV, views_of_dates, spec_date_records};

verus! {

/// Insert into a summary list sorted descending: a strictly greater count
/// goes in front of the first smaller one, equals stay behind earlier
/// entries.
pub open spec fn insert_desc(sorted: Seq<RepoV>, x: RepoV) -> Seq<RepoV>
    decreases sorted.len(),
{
    if sorted.len() == 0 {
        seq![x]
    } else if x.contributors > sorted[0].contributors {
        seq![x] + sorted
    } else {
        seq![sorted[0]] + insert_desc(sorted.drop_first(), x)
    }
}

/// Stable sort of repository summaries, descending by contributor count.
pub open spec fn spec_sort_repos(s: Seq<RepoV>) -> Seq<RepoV>
    decreases s.len(),
{
    if s.len() == 0 {
        Seq::empty()
    } else {
        insert_desc(spec_sort_repos(s.drop_last()), s.last())
    }
}

proof fn lemma_insert_desc_split(s: Seq<RepoV>, x: RepoV, pos: int)
    requires
        0 <= pos <= s.len(),
        forall|q: int| 0 <= q < pos ==> !(x.contributors > s[q].contributors),
        pos < s.len() ==> x.contributors > s[pos].contributors,
    ensures
        insert_desc(s, x) == s.subrange(0, pos) + seq![x] + s.subrange(pos, s.len() as int),
    decreases s.len(),
{
    if s.len() == 0 {
        assert(insert_desc(s, x) =~= s.subrange(0, 0) + seq![x] + s.subrange(0, 0));
    } else if x.contributors > s[0].contributors {
        assert(pos == 0);
        assert(insert_desc(s, x) =~= s.subrange(0, 0) + seq![x] + s.subrange(0, s.len() as int));
    } else {
        let rest = s.drop_first();
        assert(forall|q: int| 0 <= q < pos - 1 ==> rest[q] == s[q + 1]);
        lemma_insert_desc_split(rest, x, pos - 1);
        assert(insert_desc(s, x) == seq![s[0]] + insert_desc(rest, x));
        assert(seq![s[0]] + (rest.subrange(0, pos - 1) + seq![x] + rest.subrange(
            pos - 1,
            rest.len() as int,
        )) =~= s.subrange(0, pos) + seq![x] + s.subrange(pos, s.len() as int));
    }
}

/// Descending order on contributor counts.
pub open spec fn sorted_desc(s: Seq<RepoV>) -> bool {
    forall|i: int, j: int| 0 <= i <= j < s.len() ==> s[i].contributors >= s[j].contributors
}

proof fn lemma_insert_desc_bound(s: Seq<RepoV>, x: RepoV, b: int)
    requires
        b >= x.contributors,
        forall|q: int| 0 <= q < s.len() ==> b >= s[q].contributors,
    ensures
        forall|q: int| 0 <= q < insert_desc(s, x).len() ==> b >= insert_desc(s, x)[q].contributors,
    decreases s.len(),
{
    if s.len() == 0 {
    } else if x.contributors > s[0].contributors {
    } else {
        let rest = s.drop_first();
        lemma_insert_desc_bound(rest, x, b);
        assert(forall|q: int|
            1 <= q < insert_desc(s, x).len() ==> insert_desc(s, x)[q] == insert_desc(rest, x)[q
                - 1]);
    }
}

proof fn lemma_insert_desc_sorted(s: Seq<RepoV>, x: RepoV)
    requires
        sorted_desc(s),
    ensures
        sorted_desc(insert_desc(s, x)),
    decreases s.len(),
{
    if s.len() == 0 {
    } else if x.contributors > s[0].contributors {
        let r = seq![x] + s;
        assert(forall|q: int| 1 <= q < r.len() ==> r[q] == s[q - 1]);
    } else {
        let rest = s.drop_first();
        assert(sorted_desc(rest)) by {
            assert(forall|q: int| 0 <= q < rest.len() ==> rest[q] == s[q + 1]);
        }
        lemma_insert_desc_sorted(rest, x);
        lemma_insert_desc_bound(rest, x, s[0].contributors as int);
        let r = seq![s[0]] + insert_desc(rest, x);
        assert(forall|q: int| 1 <= q < r.len() ==> r[q] == insert_desc(rest, x)[q - 1]);
    }
}

/// Repository summaries come out sorted descending by `contributors`.
pub proof fn lemma_sort_repos_sorted(s: Seq<RepoV>)
    ensures
        sorted_desc(spec_sort_repos(s)),
    decreases s.len(),
{
    if s.len() > 0 {
        lemma_sort_repos_sorted(s.drop_last());
        lemma_insert_desc_sorted(spec_sort_repos(s.drop_last()), s.last());
    }
}

/// Sort repository summaries, as [`spec_sort_repos`] describes: stable,
/// descending by contributor count.
pub fn sort_repos_desc(list: Vec<Repo>) -> (r: Vec<Repo>)
    ensures
        views_of_repo_list(r@) == spec_sort_repos(views_of_repo_list(list@)),
{
    let ghost orig = views_of_repo_list(list@);
    let mut rest = list;
    let mut out: Vec<Repo> = Vec::new();
    let ghost mut done = Seq::<RepoV>::empty();
    proof {
        assert(orig =~= done + views_of_repo_list(rest@));
        assert(views_of_repo_list(out@) =~= spec_sort_repos(done));
    }
    while rest.len() > 0
        invariant
            orig == views_of_repo_list(list@),
            orig == done + views_of_repo_list(rest@),
            views_of_repo_list(out@) == spec_sort_repos(done),
        decreases rest@.len(),
    {
        let ghost rest_before = views_of_repo_list(rest@);
        let x = rest.remove(0);
        proof {
            assert(rest_before[0] == x@);
            assert(views_of_repo_list(rest@) =~= rest_before.drop_first());
            let done2 = done.push(x@);
            assert(done2.drop_last() =~= done);
            assert(done2.last() == x@);
            assert(spec_sort_repos(done2) == insert_desc(spec_sort_repos(done), x@));
            assert(done2 + views_of_repo_list(rest@) =~= orig);
            done = done2;
        }
        let mut pos: usize = 0;
        while pos < out.len() && !(x.contributors > out[pos].contributors)
            invariant
                0 <= pos <= out@.len(),
                forall|q: int|
                    0 <= q < pos ==> !(x@.contributors > views_of_repo_list(
                        out@,
                    )[q].contributors),
            decreases out@.len() - pos,
        {
            assert(views_of_repo_list(out@)[pos as int] == out@[pos as int]@);
            pos = pos + 1;
        }
        proof {
            let ov = views_of_repo_list(out@);
            if pos < out.len() {
                assert(ov[pos as int] == out@[pos as int]@);
            }
            lemma_insert_desc_split(ov, x@, pos as int);
            assert(views_of_repo_list(out@.insert(pos as int, x)) =~= ov.subrange(0, pos as int)
                + seq![x@] + ov.subrange(pos as int, ov.len() as int));
        }
        out.insert(pos, x);
    }
    proof {
        assert(views_of_repo_list(rest@) =~= Seq::<RepoV>::empty());
        assert(done =~= orig);
    }
    out
}

/// Insert into a date list sorted ascending: a strictly smaller time goes
/// in front of the first greater one, equals stay behind earlier entries.
pub open spec fn insert_asc(sorted: Seq<RepoDateV>, x: RepoDateV) -> Seq<RepoDateV>
    decreases sorted.len(),
{
    if sorted.len() == 0 {
        seq![x]
    } else if x.time < sorted[0].time {
        seq![x] + sorted
    } else {
        seq![sorted[0]] + insert_asc(sorted.drop_first(), x)
    }
}

/// Stable sort of first-commit records, ascending by numeric time.
pub open spec fn spec_sort_dates(s: Seq<RepoDateV>) -> Seq<RepoDateV>
    decreases s.len(),
{
    if s.len() == 0 {
        Seq::empty()
    } else {
        insert_asc(spec_sort_dates(s.drop_last()), s.last())
    }
}

proof fn lemma_insert_asc_split(s: Seq<RepoDateV>, x: RepoDateV, pos: int)
    requires
        0 <= pos <= s.len(),
        forall|q: int| 0 <= q < pos ==> !(x.time < s[q].time),
        pos < s.len() ==> x.time < s[pos].time,
    ensures
        insert_asc(s, x) == s.subrange(0, pos) + seq![x] + s.subrange(pos, s.len() as int),
    decreases s.len(),
{
    if s.len() == 0 {
        assert(insert_asc(s, x) =~= s.subrange(0, 0) + seq![x] + s.subrange(0, 0));
    } else if x.time < s[0].time {
        assert(pos == 0);
        assert(insert_asc(s, x) =~= s.subrange(0, 0) + seq![x] + s.subrange(0, s.len() as int));
    } else {
        let rest = s.drop_first();
        assert(forall|q: int| 0 <= q < pos - 1 ==> rest[q] == s[q + 1]);
        lemma_insert_asc_split(rest, x, pos - 1);
        assert(insert_asc(s, x) == seq![s[0]] + insert_asc(rest, x));
        assert(seq![s[0]] + (rest.subrange(0, pos - 1) + seq![x] + rest.subrange(
            pos - 1,
            rest.len() as int,
        )) =~= s.subrange(0, pos) + seq![x] + s.subrange(pos, s.len() as int));
    }
}

/// Ascending order on numeric times.
pub open spec fn sorted_asc(s: Seq<RepoDateV>) -> bool {
    forall|i: int, j: int| 0 <= i <= j < s.len() ==> s[i].time <= s[j].time
}

proof fn lemma_insert_asc_bound(s: Seq<RepoDateV>, x: RepoDateV, b: int)
    requires
        b <= x.time,
        forall|q: int| 0 <= q < s.len() ==> b <= s[q].time,
    ensures
        forall|q: int| 0 <= q < insert_asc(s, x).len() ==> b <= insert_asc(s, x)[q].time,
    decreases s.len(),
{
    if s.len() == 0 {
    } else if x.time < s[0].time {
    } else {
        let rest = s.drop_first();
        lemma_insert_asc_bound(rest, x, b);
        assert(forall|q: int|
            1 <= q < insert_asc(s, x).len() ==> insert_asc(s, x)[q] == insert_asc(rest, x)[q - 1]);
    }
}

proof fn lemma_insert_asc_sorted(s: Seq<RepoDateV>, x: RepoDateV)
    requires
        sorted_asc(s),
    ensures
        sorted_asc(insert_asc(s, x)),
    decreases s.len(),
{
    if s.len() == 0 {
    } else if x.time < s[0].time {
        let r = seq![x] + s;
        assert(forall|q: int| 1 <= q < r.len() ==> r[q] == s[q - 1]);
    } else {
        let rest = s.drop_first();
        assert(sorted_asc(rest)) by {
            assert(forall|q: int| 0 <= q < rest.len() ==> rest[q] == s[q + 1]);
        }
        lemma_insert_asc_sorted(rest, x);
        lemma_insert_asc_bound(rest, x, s[0].time as int);
        let r = seq![s[0]] + insert_asc(rest, x);
        assert(forall|q: int| 1 <= q < r.len() ==> r[q] == insert_asc(rest, x)[q - 1]);
    }
}

/// First-commit records come out sorted ascending by `time`.
pub proof fn lemma_sort_dates_sorted(s: Seq<RepoDateV>)
    ensures
        sorted_asc(spec_sort_dates(s)),
    decreases s.len(),
{
    if s.len() > 0 {
        lemma_sort_dates_sorted(s.drop_last());
        lemma_insert_asc_sorted(spec_sort_dates(s.drop_last()), s.last());
    }
}

/// All records carry a non-negative time.
pub open spec fn all_times_nonneg(s: Seq<RepoDateV>) -> bool {
    forall|i: int| 0 <= i < s.len() ==> s[i].time >= 0
}

proof fn lemma_insert_asc_nonneg(s: Seq<RepoDateV>, x: RepoDateV)
    requires
        all_times_nonneg(s),
        x.time >= 0,
    ensures
        all_times_nonneg(insert_asc(s, x)),
    decreases s.len(),
{
    if s.len() == 0 {
    } else if x.time < s[0].time {
        let r = seq![x] + s;
        assert(forall|q: int| 1 <= q < r.len() ==> r[q] == s[q - 1]);
    } else {
        let rest = s.drop_first();
        assert(all_times_nonneg(rest)) by {
            assert(forall|q: int| 0 <= q < rest.len() ==> rest[q] == s[q + 1]);
        }
        lemma_insert_asc_nonneg(rest, x);
        let r = seq![s[0]] + insert_asc(rest, x);
        assert(forall|q: int| 1 <= q < r.len() ==> r[q] == insert_asc(rest, x)[q - 1]);
    }
}

proof fn lemma_sort_dates_nonneg(s: Seq<RepoDateV>)
    requires
        all_times_nonneg(s),
    ensures
        all_times_nonneg(spec_sort_dates(s)),
    decreases s.len(),
{
    if s.len() > 0 {
        assert(all_times_nonneg(s.drop_last())) by {
            assert(forall|q: int| 0 <= q < s.len() - 1 ==> s.drop_last()[q] == s[q]);
        }
        lemma_sort_dates_nonneg(s.drop_last());
        lemma_insert_asc_nonneg(spec_sort_dates(s.drop_last()), s.last());
    }
}

/// When no record carries a negative time, every record whose date failed
/// to parse (time zero) sorts before every record with a parsed, nonzero
/// time.
pub proof fn lemma_unparsed_dates_sort_first(s: Seq<RepoDateV>, i: int, j: int)
    requires
        all_times_nonneg(s),
        0 <= i < spec_sort_dates(s).len(),
        0 <= j < spec_sort_dates(s).len(),
        spec_sort_dates(s)[i].time == 0,
        spec_sort_dates(s)[j].time != 0,
    ensures
        i < j,
{
    lemma_sort_dates_sorted(s);
    lemma_sort_dates_nonneg(s);
    if j <= i {
        assert(spec_sort_dates(s)[j].time <= spec_sort_dates(s)[i].time);
        assert(spec_sort_dates(s)[j].time >= 0);
    }
}

/// Sort first-commit records, as [`spec_sort_dates`] describes: stable,
/// ascending by numeric time.
pub fn sort_dates_asc(list: Vec<RepoDate>) -> (r: Vec<RepoDate>)
    ensures
        views_of_dates(r@) == spec_sort_dates(views_of_dates(list@)),
{
    let ghost orig = views_of_dates(list@);
    let mut rest = list;
    let mut out: Vec<RepoDate> = Vec::new();
    let ghost mut done = Seq::<RepoDateV>::empty();
    proof {
        assert(orig =~= done + views_of_dates(rest@));
        assert(views_of_dates(out@) =~= spec_sort_dates(done));
    }
    while rest.len() > 0
        invariant
            orig == views_of_dates(list@),
            orig == done + views_of_dates(rest@),
            views_of_dates(out@) == spec_sort_dates(done),
        decreases rest@.len(),
    {
        let ghost rest_before = views_of_dates(rest@);
        let x = rest.remove(0);
        proof {
            assert(rest_before[0] == x@);
            assert(views_of_dates(rest@) =~= rest_before.drop_first());
            let done2 = done.push(x@);
            assert(done2.drop_last() =~= done);
            assert(done2.last() == x@);
            assert(spec_sort_dates(done2) == insert_asc(spec_sort_dates(done), x@));
            assert(done2 + views_of_dates(rest@) =~= orig);
            done = done2;
        }
        let mut pos: usize = 0;
        while pos < out.len() && !(x.time < out[pos].time)
            invariant
                0 <= pos <= out@.len(),
                forall|q: int| 0 <= q < pos ==> !(x@.time < views_of_dates(out@)[q].time),
            decreases out@.len() - pos,
        {
            assert(views_of_dates(out@)[pos as int] == out@[pos as int]@);
            pos = pos + 1;
        }
        proof {
            let ov = views_of_dates(out@);
            if pos < out.len() {
                assert(ov[pos as int] == out@[pos as int]@);
            }
            lemma_insert_asc_split(ov, x@, pos as int);
            assert(views_of_dates(out@.insert(pos as int, x)) =~= ov.subrange(0, pos as int)
                + seq![x@] + ov.subrange(pos as int, ov.len() as int));
        }
        out.insert(pos, x);
    }
    proof {
        assert(views_of_dates(rest@) =~= Seq::<RepoDateV>::empty());
        assert(done =~= orig);
    }
    out
}

proof fn lemma_insert_desc_multiset(s: Seq<RepoV>, x: RepoV)
    ensures
        insert_desc(s, x).to_multiset() == s.to_multiset().insert(x),
    decreases s.len(),
{
    broadcast use vstd::seq_lib::group_to_multiset_ensures;

    if s.len() == 0 {
        assert(seq![x] =~= s.push(x));
    } else if x.contributors > s[0].contributors {
        vstd::seq_lib::lemma_multiset_commutative(seq![x], s);
        assert(seq![x] =~= Seq::<RepoV>::empty().push(x));
        assert((seq![x] + s).to_multiset() =~= s.to_multiset().insert(x));
    } else {
        let rest = s.drop_first();
        lemma_insert_desc_multiset(rest, x);
        vstd::seq_lib::lemma_multiset_commutative(seq![s[0]], insert_desc(rest, x));
        vstd::seq_lib::lemma_multiset_commutative(seq![s[0]], rest);
        assert(s =~= seq![s[0]] + rest);
        assert((seq![s[0]] + insert_desc(rest, x)).to_multiset() =~= s.to_multiset().insert(x));
    }
}

/// The sorted summary list is a permutation of the input.
pub proof fn lemma_sort_repos_permutes(s: Seq<RepoV>)
    ensures
        spec_sort_repos(s).to_multiset() == s.to_multiset(),
    decreases s.len(),
{
    broadcast use vstd::seq_lib::group_to_multiset_ensures;

    if s.len() > 0 {
        lemma_sort_repos_permutes(s.drop_last());
        lemma_insert_desc_multiset(spec_sort_repos(s.drop_last()), s.last());
        assert(s =~= s.drop_last().push(s.last()));
    }
}

proof fn lemma_insert_asc_multiset(s: Seq<RepoDateV>, x: RepoDateV)
    ensures
        insert_asc(s, x).to_multiset() == s.to_multiset().insert(x),
    decreases s.len(),
{
    broadcast use vstd::seq_lib::group_to_multiset_ensures;

    if s.len() == 0 {
        assert(seq![x] =~= s.push(x));
    } else if x.time < s[0].time {
        vstd::seq_lib::lemma_multiset_commutative(seq![x], s);
        assert(seq![x] =~= Seq::<RepoDateV>::empty().push(x));
        assert((seq![x] + s).to_multiset() =~= s.to_multiset().insert(x));
    } else {
        let rest = s.drop_first();
        lemma_insert_asc_multiset(rest, x);
        vstd::seq_lib::lemma_multiset_commutative(seq![s[0]], insert_asc(rest, x));
        vstd::seq_lib::lemma_multiset_commutative(seq![s[0]], rest);
        assert(s =~= seq![s[0]] + rest);
        assert((seq![s[0]] + insert_asc(rest, x)).to_multiset() =~= s.to_multiset().insert(x));
    }
}

/// The sorted date list is a permutation of the input.
pub proof fn lemma_sort_dates_permutes(s: Seq<RepoDateV>)
    ensures
        spec_sort_dates(s).to_multiset() == s.to_multiset(),
    decreases s.len(),
{
    broadcast use vstd::seq_lib::group_to_multiset_ensures;

    if s.len() > 0 {
        lemma_sort_dates_permutes(s.drop_last());
        lemma_insert_asc_multiset(spec_sort_dates(s.drop_last()), s.last());
        assert(s =~= s.drop_last().push(s.last()));
    }
}

/// Every output is a function of the scanned repositories, the command
/// outputs and the alias table alone: a second run over unchanged inputs
/// yields the same author table, the same sorted repository summaries and
/// the same sorted first-commit records.
pub proof fn lemma_rerun_is_identical(
    names: Seq<Seq<char>>,
    outputs: Seq<Seq<char>>,
    alias: Seq<(Seq<char>, Seq<char>)>,
    draws: Seq<Seq<char>>,
    names2: Seq<Seq<char>>,
    outputs2: Seq<Seq<char>>,
    alias2: Seq<(Seq<char>, Seq<char>)>,
    draws2: Seq<Seq<char>>,
)
    requires
        names2 == names,
        outputs2 == outputs,
        alias2 == alias,
        draws2 == draws,
    ensures
        spec_aggregate(names, outputs, alias) == spec_aggregate(names2, outputs2, alias2),
        (match spec_aggregate(names, outputs, alias) {
            Option::Some(st) => match spec_aggregate(names2, outputs2, alias2) {
                Option::Some(st2) => spec_sort_repos(st.1) == spec_sort_repos(st2.1) && st.0
                    == st2.0,
                Option::None => false,
            },
            Option::None => spec_aggregate(names2, outputs2, alias2) is None,
        }),
        spec_sort_dates(spec_date_records(names, draws)) == spec_sort_dates(
            spec_date_records(names2, draws2),
        ),
{
}

} // verus!
