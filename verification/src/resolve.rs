//! Destination resolver: turns a contest/problem URL into the storage
//! subdirectory and the batch-context key.
//!
//! Three URL shapes are recognized, tried in a fixed order; within one
//! shape the leftmost occurrence in the URL wins. A contest identifier is
//! a nonempty run of ASCII digits, a problem identifier a nonempty run of
//! ASCII word characters; the problem part is lower-cased in the
//! subdirectory but the context key keeps its case.

use vstd::prelude::*;

use crate::data::ParseResult;
use crate::text::{
    char_is_digit, char_is_word, char_to_lower, is_digit_char, is_word_char, lower_seq,
};

verus! {

/// First position at or after `i` where the run of ASCII digits ends.
pub open spec fn digit_run_end(s: Seq<char>, i: int) -> int
    decreases s.len() - i,
{
    if 0 <= i < s.len() && is_digit_char(s[i]) {
        digit_run_end(s, i + 1)
    } else {
        i
    }
}

/// First position at or after `i` where the run of ASCII word characters ends.
pub open spec fn word_run_end(s: Seq<char>, i: int) -> int
    decreases s.len() - i,
{
    if 0 <= i < s.len() && is_word_char(s[i]) {
        word_run_end(s, i + 1)
    } else {
        i
    }
}

/// The greatest position in `(lo, j]` holding an underscore, or `lo` when
/// there is none.
pub open spec fn last_underscore(s: Seq<char>, lo: int, j: int) -> int
    decreases j - lo,
{
    if j <= lo {
        lo
    } else if s[j] == '_' {
        j
    } else {
        last_underscore(s, lo, j - 1)
    }
}

/// The literal `lit` occurs in `s` starting at position `i`.
pub open spec fn lit_at(s: Seq<char>, i: int, lit: Seq<char>) -> bool {
    &&& 0 <= i
    &&& i + lit.len() <= s.len()
    &&& s.subrange(i, i + lit.len()) == lit
}

/// The recognized URL shapes, in the order they are tried.
#[derive(Debug, Clone, Copy)]
pub enum UrlPattern {
    /// `https://codeforces.com/contest/{digits}/problem/{word}`
    CfContest,
    /// `https://codeforces.com/problemset/problem/{digits}/{word}`
    CfProblemset,
    /// `https://atcoder.jp/contests/{word}/tasks/{word}_{word}`,
    /// split at the last underscore that still leaves a problem part.
    AtcoderTask,
}

/// The shape `p` matches in `s` starting exactly at position `i`. Each
/// identifier run is taken greedily: it extends until the first character
/// outside its class, and the literal after it must follow right there.
pub open spec fn pattern_at(p: UrlPattern, s: Seq<char>, i: int) -> bool {
    match p {
        UrlPattern::CfContest => {
            let a = i + ("https://codeforces.com/contest/")@.len();
            let b = digit_run_end(s, a);
            let c = b + ("/problem/")@.len();
            let d = word_run_end(s, c);
            &&& lit_at(s, i, ("https://codeforces.com/contest/")@)
            &&& b > a
            &&& lit_at(s, b, ("/problem/")@)
            &&& d > c
        },
        UrlPattern::CfProblemset => {
            let a = i + ("https://codeforces.com/problemset/problem/")@.len();
            let b = digit_run_end(s, a);
            &&& lit_at(s, i, ("https://codeforces.com/problemset/problem/")@)
            &&& b > a
            &&& b < s.len()
            &&& s[b] == '/'
            &&& word_run_end(s, b + 1) > b + 1
        },
        UrlPattern::AtcoderTask => {
            let a = i + ("https://atcoder.jp/contests/")@.len();
            let b = word_run_end(s, a);
            let c = b + ("/tasks/")@.len();
            let d = word_run_end(s, c);
            let u = last_underscore(s, c, d - 2);
            &&& lit_at(s, i, ("https://atcoder.jp/contests/")@)
            &&& b > a
            &&& lit_at(s, b, ("/tasks/")@)
            &&& u > c
        },
    }
}

/// The storage subdirectory that a match of `p` at `i` yields.
pub open spec fn pattern_sub(p: UrlPattern, s: Seq<char>, i: int) -> Seq<char> {
    match p {
        UrlPattern::CfContest => {
            let a = i + ("https://codeforces.com/contest/")@.len();
            let b = digit_run_end(s, a);
            let c = b + ("/problem/")@.len();
            let d = word_run_end(s, c);
            s.subrange(a, b) + ("/")@ + lower_seq(s.subrange(c, d))
        },
        UrlPattern::CfProblemset => {
            let a = i + ("https://codeforces.com/problemset/problem/")@.len();
            let b = digit_run_end(s, a);
            let d = word_run_end(s, b + 1);
            s.subrange(a, b) + ("/")@ + lower_seq(s.subrange(b + 1, d))
        },
        UrlPattern::AtcoderTask => {
            let a = i + ("https://atcoder.jp/contests/")@.len();
            let b = word_run_end(s, a);
            let c = b + ("/tasks/")@.len();
            let d = word_run_end(s, c);
            let u = last_underscore(s, c, d - 2);
            s.subrange(c, u) + ("/")@ + s.subrange(u + 1, d)
        },
    }
}

/// The batch-context key that a match of `p` at `i` yields.
pub open spec fn pattern_key(p: UrlPattern, s: Seq<char>, i: int) -> Seq<char> {
    match p {
        UrlPattern::CfContest => {
            let a = i + ("https://codeforces.com/contest/")@.len();
            s.subrange(a, digit_run_end(s, a))
        },
        UrlPattern::CfProblemset => {
            let a = i + ("https://codeforces.com/problemset/problem/")@.len();
            s.subrange(a, digit_run_end(s, a))
        },
        UrlPattern::AtcoderTask => {
            let a = i + ("https://atcoder.jp/contests/")@.len();
            let b = word_run_end(s, a);
            let c = b + ("/tasks/")@.len();
            let d = word_run_end(s, c);
            s.subrange(c, last_underscore(s, c, d - 2))
        },
    }
}

/// The least position at or after `i` where `p` matches, if any.
pub open spec fn pattern_search(p: UrlPattern, s: Seq<char>, i: int) -> Option<int>
    decreases s.len() - i,
{
    if i >= s.len() {
        None
    } else if pattern_at(p, s, i) {
        Some(i)
    } else {
        pattern_search(p, s, i + 1)
    }
}

/// What a URL resolves to: the first shape, in order, that matches anywhere
/// in the URL, at its leftmost match. `None` when no shape matches.
pub open spec fn resolved(s: Seq<char>) -> Option<(Seq<char>, Seq<char>)> {
    match pattern_search(UrlPattern::CfContest, s, 0) {
        Some(i) => Some(
            (pattern_sub(UrlPattern::CfContest, s, i), pattern_key(UrlPattern::CfContest, s, i)),
        ),
        None => match pattern_search(UrlPattern::CfProblemset, s, 0) {
            Some(i) => Some(
                (
                    pattern_sub(UrlPattern::CfProblemset, s, i),
                    pattern_key(UrlPattern::CfProblemset, s, i),
                ),
            ),
            None => match pattern_search(UrlPattern::AtcoderTask, s, 0) {
                Some(i) => Some(
                    (
                        pattern_sub(UrlPattern::AtcoderTask, s, i),
                        pattern_key(UrlPattern::AtcoderTask, s, i),
                    ),
                ),
                None => None,
            },
        },
    }
}

/// `pattern_search` returns the least match position, and `None` exactly
/// when the shape matches nowhere at or after `i`.
pub proof fn lemma_pattern_search(p: UrlPattern, s: Seq<char>, i: int)
    requires
        0 <= i <= s.len(),
    ensures
        match pattern_search(p, s, i) {
            Some(j) => {
                &&& i <= j < s.len()
                &&& pattern_at(p, s, j)
                &&& forall|k: int| i <= k < j ==> !pattern_at(p, s, k)
            },
            None => forall|k: int| i <= k < s.len() ==> !pattern_at(p, s, k),
        },
    decreases s.len() - i,
{
    if i < s.len() && !pattern_at(p, s, i) {
        lemma_pattern_search(p, s, i + 1);
    }
}

/// A failed resolution carries the URL that matched no shape.
#[derive(Debug, Clone)]
pub struct UrlError {
    pub url: String,
}

impl UrlError {
    /// The human-readable account of the failure.
    pub fn message(&self) -> (r: String)
        ensures
            r@ == ("mismatch dstdir of url: ")@ + self.url@,
    {
        let mut r = String::new();
        r.append("mismatch dstdir of url: ");
        r.append(self.url.as_str());
        proof {
            assert(r@ =~= ("mismatch dstdir of url: ")@ + self.url@);
        }
        r
    }
}

/// Everything in the run `[i, digit_run_end)` is a digit and the run is
/// maximal on both sides of its end.
proof fn lemma_digit_run(s: Seq<char>, i: int)
    requires
        0 <= i <= s.len(),
    ensures
        i <= digit_run_end(s, i) <= s.len(),
        forall|k: int| i <= k < digit_run_end(s, i) ==> is_digit_char(s[k]),
        digit_run_end(s, i) < s.len() ==> !is_digit_char(s[digit_run_end(s, i)]),
    decreases s.len() - i,
{
    if i < s.len() && is_digit_char(s[i]) {
        lemma_digit_run(s, i + 1);
    }
}

/// Everything in the run `[i, word_run_end)` is a word character and the
/// run is maximal.
proof fn lemma_word_run(s: Seq<char>, i: int)
    requires
        0 <= i <= s.len(),
    ensures
        i <= word_run_end(s, i) <= s.len(),
        forall|k: int| i <= k < word_run_end(s, i) ==> is_word_char(s[k]),
        word_run_end(s, i) < s.len() ==> !is_word_char(s[word_run_end(s, i)]),
    decreases s.len() - i,
{
    if i < s.len() && is_word_char(s[i]) {
        lemma_word_run(s, i + 1);
    }
}

/// `last_underscore` stays in `[lo, j]`, names an underscore when it moved,
/// and nothing above it in the range is an underscore.
proof fn lemma_last_underscore(s: Seq<char>, lo: int, j: int)
    requires
        lo <= j,
    ensures
        lo <= last_underscore(s, lo, j) <= j,
        last_underscore(s, lo, j) > lo ==> s[last_underscore(s, lo, j)] == '_',
        forall|k: int| last_underscore(s, lo, j) < k <= j ==> s[k] != '_',
    decreases j - lo,
{
    if j > lo && s[j] != '_' {
        lemma_last_underscore(s, lo, j - 1);
    }
}

/// Decides whether `lit` occurs at position `i` of `url`.
fn match_lit_at(url: &str, n: usize, i: usize, lit: &str) -> (b: bool)
    requires
        n == url@.len(),
        i <= n,
    ensures
        b == lit_at(url@, i as int, lit@),
{
    let m = lit.unicode_len();
    if m > n - i {
        return false;
    }
    let mut j: usize = 0;
    while j < m
        invariant
            n == url@.len(),
            m == lit@.len(),
            i + m <= n,
            j <= m,
            forall|k: int| 0 <= k < j ==> url@[i + k] == lit@[k],
        decreases m - j,
    {
        if url.get_char(i + j) != lit.get_char(j) {
            proof {
                assert(url@.subrange(i as int, i + m) != lit@) by {
                    assert(url@.subrange(i as int, i + m)[j as int] == url@[i + j]);
                }
            }
            return false;
        }
        j = j + 1;
    }
    proof {
        assert(url@.subrange(i as int, i + m) =~= lit@);
    }
    true
}

/// Computes [`digit_run_end`].
fn scan_digit_run(url: &str, n: usize, i: usize) -> (r: usize)
    requires
        n == url@.len(),
        i <= n,
    ensures
        r == digit_run_end(url@, i as int),
        i <= r <= n,
{
    let mut j = i;
    while j < n && char_is_digit(url.get_char(j))
        invariant
            n == url@.len(),
            i <= j <= n,
            digit_run_end(url@, i as int) == digit_run_end(url@, j as int),
        decreases n - j,
    {
        j = j + 1;
    }
    proof {
        lemma_digit_run(url@, i as int);
    }
    j
}

/// Computes [`word_run_end`].
fn scan_word_run(url: &str, n: usize, i: usize) -> (r: usize)
    requires
        n == url@.len(),
        i <= n,
    ensures
        r == word_run_end(url@, i as int),
        i <= r <= n,
{
    let mut j = i;
    while j < n && char_is_word(url.get_char(j))
        invariant
            n == url@.len(),
            i <= j <= n,
            word_run_end(url@, i as int) == word_run_end(url@, j as int),
        decreases n - j,
    {
        j = j + 1;
    }
    proof {
        lemma_word_run(url@, i as int);
    }
    j
}

/// Decides [`pattern_at`] for one shape at one position.
fn match_pattern_at(p: UrlPattern, url: &str, n: usize, i: usize) -> (b: bool)
    requires
        n == url@.len(),
        i <= n,
    ensures
        b == pattern_at(p, url@, i as int),
{
    match p {
        UrlPattern::CfContest => {
            let pre = "https://codeforces.com/contest/";
            if !match_lit_at(url, n, i, pre) {
                return false;
            }
            let a = i + pre.unicode_len();
            let b = scan_digit_run(url, n, a);
            if b == a {
                return false;
            }
            let mid = "/problem/";
            if !match_lit_at(url, n, b, mid) {
                return false;
            }
            let c = b + mid.unicode_len();
            let d = scan_word_run(url, n, c);
            d > c
        },
        UrlPattern::CfProblemset => {
            let pre = "https://codeforces.com/problemset/problem/";
            if !match_lit_at(url, n, i, pre) {
                return false;
            }
            let a = i + pre.unicode_len();
            let b = scan_digit_run(url, n, a);
            if b == a {
                return false;
            }
            if b == n || url.get_char(b) != '/' {
                return false;
            }
            let d = scan_word_run(url, n, b + 1);
            d > b + 1
        },
        UrlPattern::AtcoderTask => {
            let pre = "https://atcoder.jp/contests/";
            if !match_lit_at(url, n, i, pre) {
                return false;
            }
            let a = i + pre.unicode_len();
            let b = scan_word_run(url, n, a);
            if b == a {
                return false;
            }
            let mid = "/tasks/";
            if !match_lit_at(url, n, b, mid) {
                return false;
            }
            let c = b + mid.unicode_len();
            let d = scan_word_run(url, n, c);
            if d - c < 3 {
                return false;
            }
            let u = find_last_underscore(url, n, c, d - 2);
            u > c
        },
    }
}

/// Computes [`last_underscore`] over `(lo, j]`.
fn find_last_underscore(url: &str, n: usize, lo: usize, j: usize) -> (u: usize)
    requires
        n == url@.len(),
        lo <= j,
        j < n,
    ensures
        u == last_underscore(url@, lo as int, j as int),
{
    let mut k = j;
    loop
        invariant
            n == url@.len(),
            lo <= k <= j < n,
            last_underscore(url@, lo as int, j as int) == last_underscore(
                url@,
                lo as int,
                k as int,
            ),
        decreases k - lo,
    {
        if k == lo {
            return lo;
        }
        if url.get_char(k) == '_' {
            return k;
        }
        k = k - 1;
    }
}

/// Finds the leftmost match position of one shape, as [`pattern_search`]
/// names it.
fn find_pattern(p: UrlPattern, url: &str, n: usize) -> (r: Option<usize>)
    requires
        n == url@.len(),
    ensures
        match r {
            Some(i) => pattern_search(p, url@, 0) == Some(i as int) && i < n,
            None => pattern_search(p, url@, 0) is None,
        },
{
    let mut i: usize = 0;
    while i < n
        invariant
            n == url@.len(),
            i <= n,
            pattern_search(p, url@, 0) == pattern_search(p, url@, i as int),
        decreases n - i,
    {
        if match_pattern_at(p, url, n, i) {
            return Some(i);
        }
        i = i + 1;
    }
    None
}

/// Appends the lower-cased characters `s[c..d]` to `out`.
fn push_lowered(out: &mut String, url: &str, c: usize, d: usize)
    requires
        c <= d <= url@.len(),
    ensures
        final (out)@ == old(out)@ + lower_seq(url@.subrange(c as int, d as int)),
{
    let mut k = c;
    while k < d
        invariant
            c <= k <= d <= url@.len(),
            out@ == old(out)@ + lower_seq(url@.subrange(c as int, k as int)),
        decreases d - k,
    {
        out.push(char_to_lower(url.get_char(k)));
        proof {
            assert(out@ =~= old(out)@ + lower_seq(url@.subrange(c as int, k + 1)));
        }
        k = k + 1;
    }
    proof {
        assert(out@ =~= old(out)@ + lower_seq(url@.subrange(c as int, d as int)));
    }
}

/// Extracts the subdirectory and the context key of a match of `p` at `i`.
fn extract(p: UrlPattern, url: &str, n: usize, i: usize) -> (r: (String, String))
    requires
        n == url@.len(),
        i <= n,
        pattern_at(p, url@, i as int),
    ensures
        r.0@ == pattern_sub(p, url@, i as int),
        r.1@ == pattern_key(p, url@, i as int),
{
    match p {
        UrlPattern::CfContest => {
            let a = i + "https://codeforces.com/contest/".unicode_len();
            let b = scan_digit_run(url, n, a);
            let c = b + "/problem/".unicode_len();
            let d = scan_word_run(url, n, c);
            let key = url.substring_char(a, b).to_owned();
            let mut sub = url.substring_char(a, b).to_owned();
            sub.append("/");
            push_lowered(&mut sub, url, c, d);
            proof {
                assert(sub@ =~= pattern_sub(p, url@, i as int));
            }
            (sub, key)
        },
        UrlPattern::CfProblemset => {
            let a = i + "https://codeforces.com/problemset/problem/".unicode_len();
            let b = scan_digit_run(url, n, a);
            let d = scan_word_run(url, n, b + 1);
            let key = url.substring_char(a, b).to_owned();
            let mut sub = url.substring_char(a, b).to_owned();
            sub.append("/");
            push_lowered(&mut sub, url, b + 1, d);
            proof {
                assert(sub@ =~= pattern_sub(p, url@, i as int));
            }
            (sub, key)
        },
        UrlPattern::AtcoderTask => {
            let a = i + "https://atcoder.jp/contests/".unicode_len();
            let b = scan_word_run(url, n, a);
            let c = b + "/tasks/".unicode_len();
            let d = scan_word_run(url, n, c);
            proof {
                if d - 2 <= c {
                    assert(last_underscore(url@, c as int, (d as int) - 2) == c as int);
                }
                lemma_last_underscore(url@, c as int, (d as int) - 2);
            }
            let u = find_last_underscore(url, n, c, d - 2);
            let key = url.substring_char(c, u).to_owned();
            let mut sub = url.substring_char(c, u).to_owned();
            sub.append("/");
            sub.append(url.substring_char(u + 1, d));
            proof {
                assert(sub@ =~= pattern_sub(p, url@, i as int));
            }
            (sub, key)
        },
    }
}

/// Resolves the payload's URL to `(subdirectory, context key)`, or reports
/// the URL as unresolvable. The result is exactly what [`resolved`] names:
/// success if and only if some recognized shape occurs in the URL.
pub fn dstdir(r: &ParseResult) -> (res: Result<(String, String), UrlError>)
    ensures
        match res {
            Ok(p) => resolved(r.url@) == Some((p.0@, p.1@)),
            Err(e) => resolved(r.url@) is None && e.url@ == r.url@,
        },
{
    let url = r.url.as_str();
    let n = url.unicode_len();
    if let Some(i) = find_pattern(UrlPattern::CfContest, url, n) {
        proof {
            lemma_pattern_search(UrlPattern::CfContest, url@, 0);
        }
        let (sub, key) = extract(UrlPattern::CfContest, url, n, i);
        return Ok((sub, key));
    }
    if let Some(i) = find_pattern(UrlPattern::CfProblemset, url, n) {
        proof {
            lemma_pattern_search(UrlPattern::CfProblemset, url@, 0);
        }
        let (sub, key) = extract(UrlPattern::CfProblemset, url, n, i);
        return Ok((sub, key));
    }
    if let Some(i) = find_pattern(UrlPattern::AtcoderTask, url, n) {
        proof {
            lemma_pattern_search(UrlPattern::AtcoderTask, url@, 0);
        }
        let (sub, key) = extract(UrlPattern::AtcoderTask, url, n, i);
        return Ok((sub, key));
    }
    Err(UrlError { url: r.url.clone() })
}

/// Resolution is deterministic: one URL yields one result, so resolving
/// the same URL twice yields identical subdirectory and context key.
pub proof fn lemma_resolution_deterministic(
    u: Seq<char>,
    r1: Option<(Seq<char>, Seq<char>)>,
    r2: Option<(Seq<char>, Seq<char>)>,
)
    requires
        r1 == resolved(u),
        r2 == resolved(u),
    ensures
        r1 == r2,
{
}

/// A URL resolves if and only if some recognized shape occurs at some
/// position; in particular a URL in which no shape matches anywhere always
/// fails resolution, and a match never yields a result from a partial
/// pattern.
pub proof fn lemma_resolved_characterization(u: Seq<char>)
    ensures
        resolved(u) is Some <==> exists|p: UrlPattern, i: int| pattern_at(p, u, i),
{
    lemma_pattern_search(UrlPattern::CfContest, u, 0);
    lemma_pattern_search(UrlPattern::CfProblemset, u, 0);
    lemma_pattern_search(UrlPattern::AtcoderTask, u, 0);
    if exists|p: UrlPattern, i: int| pattern_at(p, u, i) {
        let (p, i) = choose|p: UrlPattern, i: int| pattern_at(p, u, i);
        assert(0 <= i < u.len()) by {
            match p {
                UrlPattern::CfContest => {},
                UrlPattern::CfProblemset => {},
                UrlPattern::AtcoderTask => {},
            }
        }
    }
}

} // verus!
