//! Text handling for the loosely structured output of the version-control
//! tool: whitespace trimming, line splitting, and parsing of contributor
//! lines of the shape `<count>\t<author>`.

use vstd::prelude::*;

verus! {

/// A character counts as whitespace when trimming: the Unicode
/// `White_Space` set, the one `str::trim` removes.
pub open spec fn is_space(c: char) -> bool {
    ||| c == ' '
    ||| c == '\t'
    ||| c == '\n'
    ||| c == '\u{b}'
    ||| c == '\u{c}'
    ||| c == '\r'
    ||| c == '\u{85}'
    ||| c == '\u{a0}'
    ||| c == '\u{1680}'
    ||| (0x2000 <= c as u32 && c as u32 <= 0x200a)
    ||| c == '\u{2028}'
    ||| c == '\u{2029}'
    ||| c == '\u{202f}'
    ||| c == '\u{205f}'
    ||| c == '\u{3000}'
}

/// Runtime test matching [`is_space`].
pub fn is_space_char(c: char) -> (r: bool)
    ensures
        r == is_space(c),
{
    c == ' ' || c == '\t' || c == '\n' || c == '\u{b}' || c == '\u{c}' || c == '\r'
        || c == '\u{85}' || c == '\u{a0}' || c == '\u{1680}' || (0x2000 <= c as u32 && c as u32
        <= 0x200a) || c == '\u{2028}' || c == '\u{2029}' || c == '\u{202f}' || c == '\u{205f}'
        || c == '\u{3000}'
}

/// Index of the first occurrence of `c` in `s` at or after `k`, or `s.len()`
/// if there is none.
pub open spec fn next_pos(s: Seq<char>, k: int, c: char) -> int
    decreases s.len() - k,
{
    if k < 0 || k >= s.len() {
        s.len() as int
    } else if s[k] == c {
        k
    } else {
        next_pos(s, k + 1, c)
    }
}

/// `next_pos` lands between `k` and `s.len()`, on an occurrence of `c` if on
/// any position, and skips no occurrence.
pub proof fn lemma_next_pos(s: Seq<char>, k: int, c: char)
    requires
        0 <= k <= s.len(),
    ensures
        k <= next_pos(s, k, c) <= s.len(),
        next_pos(s, k, c) < s.len() ==> s[next_pos(s, k, c)] == c,
        forall|i: int| k <= i < next_pos(s, k, c) ==> s[i] != c,
    decreases s.len() - k,
{
    if k < s.len() && s[k] != c {
        lemma_next_pos(s, k + 1, c);
    }
}

/// Index of the first non-whitespace character at or after `k`, or `s.len()`.
pub open spec fn first_non_space(s: Seq<char>, k: int) -> int
    decreases s.len() - k,
{
    if k < 0 || k >= s.len() {
        s.len() as int
    } else if is_space(s[k]) {
        first_non_space(s, k + 1)
    } else {
        k
    }
}

/// One past the index of the last non-whitespace character strictly before
/// `k`, or `0`.
pub open spec fn end_non_space(s: Seq<char>, k: int) -> int
    decreases k,
{
    if k <= 0 || k > s.len() {
        0
    } else if is_space(s[k - 1]) {
        end_non_space(s, k - 1)
    } else {
        k
    }
}

/// `s` with leading and trailing whitespace removed.
pub open spec fn spec_trim(s: Seq<char>) -> Seq<char> {
    let a = first_non_space(s, 0);
    let b = end_non_space(s, s.len() as int);
    if a <= b {
        s.subrange(a, b)
    } else {
        Seq::empty()
    }
}

pub proof fn lemma_first_non_space(s: Seq<char>, k: int)
    requires
        0 <= k <= s.len(),
    ensures
        k <= first_non_space(s, k) <= s.len(),
        first_non_space(s, k) < s.len() ==> !is_space(s[first_non_space(s, k)]),
        forall|i: int| k <= i < first_non_space(s, k) ==> is_space(s[i]),
    decreases s.len() - k,
{
    if k < s.len() && is_space(s[k]) {
        lemma_first_non_space(s, k + 1);
    }
}

pub proof fn lemma_end_non_space(s: Seq<char>, k: int)
    requires
        0 <= k <= s.len(),
    ensures
        0 <= end_non_space(s, k) <= k,
        end_non_space(s, k) > 0 ==> !is_space(s[end_non_space(s, k) - 1]),
        forall|i: int| end_non_space(s, k) <= i < k ==> is_space(s[i]),
    decreases k,
{
    if 0 < k && is_space(s[k - 1]) {
        lemma_end_non_space(s, k - 1);
    }
}

/// Remove leading and trailing whitespace, as [`spec_trim`] describes.
pub fn trim_str<'a>(s: &'a str) -> (r: &'a str)
    ensures
        r@ == spec_trim(s@),
{
    let n = s.unicode_len();
    let mut a: usize = 0;
    while a < n && is_space_char(s.get_char(a))
        invariant
            0 <= a <= n,
            n == s@.len(),
            first_non_space(s@, 0) == first_non_space(s@, a as int),
        decreases n - a,
    {
        a = a + 1;
    }
    assert(first_non_space(s@, 0) == a as int);
    if a == n {
        let r = s.substring_char(a, a);
        proof {
            lemma_end_non_space(s@, s@.len() as int);
            assert(r@ =~= spec_trim(s@));
        }
        return r;
    }
    let mut b: usize = n;
    while b > a && is_space_char(s.get_char(b - 1))
        invariant
            a < n,
            n == s@.len(),
            a < b <= n,
            !is_space(s@[a as int]),
            end_non_space(s@, n as int) == end_non_space(s@, b as int),
        decreases b,
    {
        assert(b - 1 > a) by {
            if b - 1 == a {
                assert(is_space(s@[a as int]));
            }
        }
        b = b - 1;
    }
    assert(end_non_space(s@, n as int) == b as int);
    let r = s.substring_char(a, b);
    proof {
        assert(r@ =~= spec_trim(s@));
    }
    r
}

/// The lines of `s` from position `k` on: segments between newline
/// characters, without a final empty segment after a terminating newline.
pub open spec fn lines_from(s: Seq<char>, k: int) -> Seq<Seq<char>>
    decreases s.len() - k,
        via lines_from_decreases
{
    if k < 0 || k >= s.len() {
        Seq::empty()
    } else {
        let j = next_pos(s, k, '\n');
        if j >= s.len() {
            seq![s.subrange(k, s.len() as int)]
        } else {
            seq![s.subrange(k, j)] + lines_from(s, j + 1)
        }
    }
}

#[via_fn]
proof fn lines_from_decreases(s: Seq<char>, k: int) {
    if 0 <= k < s.len() {
        lemma_next_pos(s, k, '\n');
    }
}

/// The lines of `s`.
pub open spec fn spec_lines(s: Seq<char>) -> Seq<Seq<char>> {
    lines_from(s, 0)
}

/// The views of a sequence of owned strings.
pub open spec fn views_of_strings(v: Seq<String>) -> Seq<Seq<char>> {
    v.map_values(|t: String| t@)
}

/// Split `s` into lines, as [`spec_lines`] describes.
pub fn split_lines(s: &str) -> (r: Vec<String>)
    ensures
        views_of_strings(r@) == spec_lines(s@),
{
    let n = s.unicode_len();
    let mut r: Vec<String> = Vec::new();
    let mut k: usize = 0;
    proof {
        assert(views_of_strings(r@) =~= Seq::<Seq<char>>::empty());
    }
    while k < n
        invariant
            0 <= k <= n,
            n == s@.len(),
            spec_lines(s@) == views_of_strings(r@) + lines_from(s@, k as int),
        decreases n - k,
    {
        let mut j: usize = k;
        while j < n && s.get_char(j) != '\n'
            invariant
                k <= j <= n,
                n == s@.len(),
                next_pos(s@, k as int, '\n') == next_pos(s@, j as int, '\n'),
            decreases n - j,
        {
            j = j + 1;
        }
        assert(next_pos(s@, k as int, '\n') == j as int);
        let line = s.substring_char(k, j).to_owned();
        proof {
            let ghost old_views = views_of_strings(r@);
            assert(views_of_strings(r@.push(line)) =~= old_views.push(line@));
        }
        r.push(line);
        if j < n {
            proof {
                assert(lines_from(s@, k as int) =~= seq![s@.subrange(k as int, j as int)]
                    + lines_from(s@, j + 1));
                assert(views_of_strings(r@) + lines_from(s@, j + 1) =~= spec_lines(s@));
            }
            k = j + 1;
        } else {
            proof {
                assert(lines_from(s@, k as int) =~= seq![s@.subrange(k as int, n as int)]);
                assert(views_of_strings(r@) + lines_from(s@, n as int) =~= spec_lines(s@));
            }
            k = n;
        }
    }
    proof {
        assert(lines_from(s@, k as int) =~= Seq::<Seq<char>>::empty());
        assert(views_of_strings(r@) =~= spec_lines(s@));
    }
    r
}

/// A decimal digit.
pub open spec fn is_digit(c: char) -> bool {
    48 <= c as u32 <= 57
}

/// The numeric value of a decimal digit.
pub open spec fn digit_val(c: char) -> int {
    c as u32 - 48
}

pub open spec fn all_digits(s: Seq<char>) -> bool {
    forall|i: int| 0 <= i < s.len() ==> is_digit(s[i])
}

/// The value of a sequence of decimal digits, most significant first.
pub open spec fn digits_val(s: Seq<char>) -> int
    decreases s.len(),
{
    if s.len() == 0 {
        0
    } else {
        digits_val(s.drop_last()) * 10 + digit_val(s.last())
    }
}

/// The digit part of a decimal count: everything after an optional leading
/// plus sign.
pub open spec fn count_digits(s: Seq<char>) -> Seq<char> {
    if s.len() > 0 && s[0] == '+' {
        s.drop_first()
    } else {
        s
    }
}

/// `s` is a decimal rendering of a 32-bit count: an optional plus sign, then
/// one or more digits, with a value in range.
pub open spec fn is_valid_count(s: Seq<char>) -> bool {
    let d = count_digits(s);
    d.len() > 0 && all_digits(d) && digits_val(d) <= u32::MAX
}

/// The count a commit-count field stands for: its decimal value when valid,
/// and zero otherwise.
pub open spec fn spec_count_or_zero(s: Seq<char>) -> u32 {
    if is_valid_count(s) {
        digits_val(count_digits(s)) as u32
    } else {
        0
    }
}

proof fn lemma_digits_val_nonneg(s: Seq<char>)
    requires
        all_digits(s),
    ensures
        digits_val(s) >= 0,
    decreases s.len(),
{
    if s.len() > 0 {
        assert(all_digits(s.drop_last()));
        lemma_digits_val_nonneg(s.drop_last());
        assert(is_digit(s.last()));
    }
}

/// Extending a digit string to the right never shrinks its value.
proof fn lemma_digits_val_grows(s: Seq<char>, k: int)
    requires
        all_digits(s),
        0 <= k <= s.len(),
    ensures
        digits_val(s) >= digits_val(s.subrange(0, k)),
    decreases s.len() - k,
{
    if k < s.len() {
        lemma_digits_val_grows(s, k + 1);
        let p = s.subrange(0, k);
        let q = s.subrange(0, k + 1);
        assert(q.drop_last() =~= p);
        assert(all_digits(p)) by {
            assert(forall|i: int| 0 <= i < p.len() ==> p[i] == s[i]);
        }
        lemma_digits_val_nonneg(p);
        assert(is_digit(q.last()));
        assert(digits_val(q) == digits_val(p) * 10 + digit_val(q.last()));
        assert(digits_val(p) * 10 >= digits_val(p)) by (nonlinear_arith)
            requires
                digits_val(p) >= 0,
        ;
    } else {
        assert(s.subrange(0, k) =~= s);
    }
}

/// Parse a commit-count field: the decimal value when the whole field is a
/// valid in-range count, and zero otherwise.
pub fn parse_count_or_zero(s: &str) -> (r: u32)
    ensures
        r == spec_count_or_zero(s@),
{
    let n = s.unicode_len();
    let start: usize = if n > 0 && s.get_char(0) == '+' {
        1
    } else {
        0
    };
    proof {
        assert(count_digits(s@) =~= s@.subrange(start as int, n as int));
    }
    if start >= n {
        return 0;
    }
    // First pass: the digit part must be all digits.
    let mut i: usize = start;
    while i < n
        invariant
            start <= i <= n,
            n == s@.len(),
            count_digits(s@) == s@.subrange(start as int, n as int),
            forall|q: int| start <= q < i ==> is_digit(s@[q]),
        decreases n - i,
    {
        let u = s.get_char(i) as u32;
        if !(48 <= u && u <= 57) {
            proof {
                let d = count_digits(s@);
                assert(d[i - start] == s@[i as int]);
                assert(!is_digit(d[i - start]));
                assert(!is_valid_count(s@));
            }
            return 0;
        }
        i = i + 1;
    }
    let ghost d = count_digits(s@);
    proof {
        assert(all_digits(d)) by {
            assert(forall|q: int| 0 <= q < d.len() ==> d[q] == s@[start + q]);
        }
    }
    // Second pass: accumulate, watching for overflow of the 32-bit range.
    let mut acc: u32 = 0;
    let mut i: usize = start;
    while i < n
        invariant
            start <= i <= n,
            n == s@.len(),
            d == count_digits(s@),
            d =~= s@.subrange(start as int, n as int),
            all_digits(d),
            acc == digits_val(d.subrange(0, i - start)),
        decreases n - i,
    {
        let u = s.get_char(i) as u32;
        assert(s@[i as int] == d[i - start]);
        assert(is_digit(d[i - start]));
        let dv: u32 = u - 48;
        if acc > (u32::MAX - dv) / 10 {
            proof {
                let p = d.subrange(0, i - start);
                let q = d.subrange(0, i + 1 - start);
                assert(q.drop_last() =~= p);
                assert(q.last() == s@[i as int]);
                assert(digits_val(q) == acc * 10 + dv);
                assert(acc * 10 + dv > u32::MAX) by (nonlinear_arith)
                    requires
                        acc > (u32::MAX - dv) / 10,
                        0 <= dv <= 9,
                        acc >= 0,
                ;
                lemma_digits_val_grows(d, i + 1 - start);
                assert(digits_val(d) > u32::MAX);
            }
            return 0;
        }
        proof {
            assert(acc * 10 + dv <= u32::MAX) by (nonlinear_arith)
                requires
                    acc <= (u32::MAX - dv) / 10,
                    0 <= dv <= 9,
                    acc >= 0,
            ;
            let p = d.subrange(0, i - start);
            let q = d.subrange(0, i + 1 - start);
            assert(q.drop_last() =~= p);
            assert(q.last() == s@[i as int]);
        }
        acc = acc * 10 + dv;
        i = i + 1;
    }
    proof {
        assert(d.subrange(0, n - start) =~= d);
    }
    acc
}

/// What a contributor line stands for: `None` when the trimmed line has no
/// tab, else the two sides of the first tab, each trimmed: the count (zero
/// when not numeric) and the author name.
pub open spec fn spec_parse_contrib(line: Seq<char>) -> Option<(u32, Seq<char>)> {
    let t = spec_trim(line);
    let j = next_pos(t, 0, '\t');
    if j >= t.len() {
        None
    } else {
        Some(
            (
                spec_count_or_zero(spec_trim(t.subrange(0, j))),
                spec_trim(t.subrange(j + 1, t.len() as int)),
            ),
        )
    }
}

/// The trimmed author-name part of a contributor line: what stands after
/// the first tab of the trimmed line.
pub open spec fn contrib_author(line: Seq<char>) -> Seq<char> {
    let t = spec_trim(line);
    spec_trim(t.subrange(next_pos(t, 0, '\t') + 1, t.len() as int))
}

/// Trimming is idempotent: a trimmed text trims to itself.
pub proof fn lemma_trim_idempotent(s: Seq<char>)
    ensures
        spec_trim(spec_trim(s)) == spec_trim(s),
{
    let a = first_non_space(s, 0);
    let b = end_non_space(s, s.len() as int);
    lemma_first_non_space(s, 0);
    lemma_end_non_space(s, s.len() as int);
    let t = spec_trim(s);
    if a > b || a == b {
        assert(t =~= Seq::<char>::empty());
        assert(spec_trim(t) =~= t);
    } else {
        assert(t == s.subrange(a, b));
        assert(!is_space(t[0]));
        assert(!is_space(t[t.len() - 1]));
        assert(first_non_space(t, 0) == 0);
        assert(end_non_space(t, t.len() as int) == t.len() as int);
        assert(spec_trim(t) =~= t);
    }
}

/// Parsing a contributor line ignores surrounding whitespace: the line and
/// its trimmed form parse to the same result.
pub proof fn lemma_parse_contrib_of_trim(line: Seq<char>)
    ensures
        spec_parse_contrib(spec_trim(line)) == spec_parse_contrib(line),
{
    lemma_trim_idempotent(line);
}

/// A count field that is not a valid decimal count parses as zero, and the
/// line still yields its author: the entry is created or updated all the
/// same.
pub proof fn lemma_nonnumeric_count_is_zero(line: Seq<char>)
    requires
        next_pos(spec_trim(line), 0, '\t') < spec_trim(line).len(),
        !is_valid_count(
            spec_trim(spec_trim(line).subrange(0, next_pos(spec_trim(line), 0, '\t'))),
        ),
    ensures
        spec_parse_contrib(line) == Some((0u32, contrib_author(line))),
{
}

/// Parse one contributor line, as [`spec_parse_contrib`] describes.
pub fn parse_contrib_line(line: &str) -> (r: Option<(u32, String)>)
    ensures
        match r {
            Some(p) => spec_parse_contrib(line@) == Some((p.0, p.1@)),
            None => spec_parse_contrib(line@) is None,
        },
{
    let t = trim_str(line);
    let n = t.unicode_len();
    let mut j: usize = 0;
    while j < n && t.get_char(j) != '\t'
        invariant
            0 <= j <= n,
            n == t@.len(),
            next_pos(t@, 0, '\t') == next_pos(t@, j as int, '\t'),
        decreases n - j,
    {
        j = j + 1;
    }
    assert(next_pos(t@, 0, '\t') == j as int);
    if j >= n {
        return None;
    }
    let count = parse_count_or_zero(trim_str(t.substring_char(0, j)));
    let author = trim_str(t.substring_char(j + 1, n)).to_owned();
    Some((count, author))
}

} // verus!
