//! URL resolution: the recognized shapes, their outputs, and failures.

use cp_guard::data::ParseResult;
use cp_guard::paths::{join_dir, test_file_path};
use cp_guard::resolve::dstdir;

fn dstdir_eq(url: &'static str, subdir: &'static str, ctx: &'static str) {
    let res = dstdir(&ParseResult {
        url: url.to_owned(),
        ..Default::default()
    });
    println!("res: {res:?}");
    assert!(res.is_ok());
    assert_eq!(res.ok(), Some((subdir.to_owned(), ctx.to_owned())));
}

#[test]
fn test_cf_url() {
    dstdir_eq(
        "https://codeforces.com/contest/2051/problem/C",
        "2051/c",
        "2051",
    );
    dstdir_eq(
        "https://codeforces.com/problemset/problem/2041/N",
        "2041/n",
        "2041",
    );
}

#[test]
fn test_atcoder_url() {
    dstdir_eq(
        "https://atcoder.jp/contests/abc384/tasks/abc384_e",
        "abc384/e",
        "abc384",
    );
}

#[test]
fn test_mismatch_url() {
    let res = dstdir(&ParseResult {
        url: "always-mismatch".to_owned(),
        ..Default::default()
    });
    assert!(res.is_err());
}

#[test]
fn test_resolution_idempotent() {
    let payload = ParseResult {
        url: "https://codeforces.com/contest/2051/problem/C".to_owned(),
        ..Default::default()
    };
    let first = dstdir(&payload);
    let second = dstdir(&payload);
    assert!(first.is_ok());
    assert_eq!(first.ok(), second.ok());
}

#[test]
fn test_partial_patterns_fail() {
    // missing problem part
    let res = dstdir(&ParseResult {
        url: "https://codeforces.com/contest/12/problem/".to_owned(),
        ..Default::default()
    });
    assert!(res.is_err());
    // contest part is not digits
    let res = dstdir(&ParseResult {
        url: "https://codeforces.com/contest/abc/problem/C".to_owned(),
        ..Default::default()
    });
    assert!(res.is_err());
    // task name has no underscore
    let res = dstdir(&ParseResult {
        url: "https://atcoder.jp/contests/abc384/tasks/e".to_owned(),
        ..Default::default()
    });
    assert!(res.is_err());
}

#[test]
fn test_empty_url_fails() {
    let res = dstdir(&ParseResult::default());
    assert!(res.is_err());
}

#[test]
fn test_error_carries_url() {
    let res = dstdir(&ParseResult {
        url: "always-mismatch".to_owned(),
        ..Default::default()
    });
    let err = res.err().expect("resolution must fail");
    assert_eq!(err.url, "always-mismatch");
    assert_eq!(err.message(), "mismatch dstdir of url: always-mismatch");
}

#[test]
fn test_pattern_found_inside_longer_text() {
    // the shape is searched for anywhere in the string, not only at its start
    dstdir_eq(
        "see https://codeforces.com/contest/5/problem/B2 now",
        "5/b2",
        "5",
    );
}

#[test]
fn test_atcoder_split_at_last_underscore() {
    dstdir_eq(
        "https://atcoder.jp/contests/xyz/tasks/arc_100_f",
        "arc_100/f",
        "arc_100",
    );
}

#[test]
fn test_shape_order_wins_over_position() {
    // the contest shape is tried before the problemset shape, even when
    // the problemset shape occurs earlier in the string
    dstdir_eq(
        "https://codeforces.com/problemset/problem/10/A https://codeforces.com/contest/20/problem/B",
        "20/b",
        "20",
    );
}

#[test]
fn test_join_dir() {
    assert_eq!(join_dir("top", "2051/c"), "top/2051/c");
    assert_eq!(join_dir("top/", "2051"), "top/2051");
    assert_eq!(join_dir("", "2051"), "2051");
}

#[test]
fn test_test_file_path() {
    assert_eq!(test_file_path("d", 1, "in"), "d/1.in");
    assert_eq!(test_file_path("d", 12, "ans"), "d/12.ans");
    assert_eq!(test_file_path("d", 0, "in"), "d/0.in");
}
