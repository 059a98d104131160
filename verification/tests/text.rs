use std::path::Path;

use bedit::clock::{format_timestamp, utc_parts, UtcParts};
use bedit::encoding::{bytes_of, copy_bytes, lossy, same_bytes};
use bedit::order::{less, push_text_key, sort_order};
use bedit::path::{
    components_of, ends_with_path, file_name, is_absolute, join, parent, parent_or_root,
    push_path_key, same_path, starts_with_path, strip_prefix,
};
use bedit::paths::{directory_key, parse_record_name, record_name, record_path};
use bedit::text;

const PATHS: [&str; 18] = [
    "", "/", "//", ".", "..", "a", "a/", "a//b", "/a", "/a/", "/a/b", "/a/./b", "./a", "a/.",
    "/a/../b", "a/b/c.txt", "///x//y/", "../a",
];

#[test]
fn matches_legacy_directory_key_encoding() {
    assert_eq!(directory_key("/tmp/a b/example"), "tmp_a_b_example");
    assert_eq!(directory_key("/"), "root");
}

#[test]
fn parses_legacy_record_name() {
    let parsed = parse_record_name("tmp_demo::_::a.txt::_::12::_::b", 'b').unwrap();
    assert_eq!(parsed, ("tmp_demo".into(), "a.txt".into(), 12));
}

#[test]
fn record_names_are_read_back() {
    let name = record_name("tmp_demo", "a.txt", u64::MAX, 'd');
    assert_eq!(name, "tmp_demo::_::a.txt::_::18446744073709551615::_::d");
    assert_eq!(
        parse_record_name(&name, 'd'),
        Some(("tmp_demo".into(), "a.txt".into(), u64::MAX))
    );
    assert_eq!(parse_record_name(&name, 'b'), None);
    assert_eq!(parse_record_name("tmp::_::a::_::x::_::b", 'b'), None);
    assert_eq!(parse_record_name("tmp::_::a::_::b", 'b'), None);
    assert_eq!(
        record_path("/store/access", "tmp", "a", 3, 'a'),
        "/store/access/tmp::_::a::_::3::_::a"
    );
}

#[test]
fn paths_agree_with_the_standard_library() {
    for p in PATHS {
        let path = Path::new(p);
        let parts: Vec<String> = path
            .components()
            .map(|c| c.as_os_str().to_str().unwrap().to_string())
            .collect();
        assert_eq!(components_of(p), parts, "components of {p:?}");
        assert_eq!(is_absolute(p), path.is_absolute(), "{p:?}");
        assert_eq!(
            parent(p),
            path.parent().map(|q| q.to_str().unwrap().to_string()),
            "parent of {p:?}"
        );
        assert_eq!(
            file_name(p),
            path.file_name().map(|q| q.to_str().unwrap().to_string()),
            "name of {p:?}"
        );
        for q in PATHS {
            let other = Path::new(q);
            assert_eq!(same_path(p, q), path == other, "{p:?} {q:?}");
            assert_eq!(
                starts_with_path(p, q),
                path.starts_with(other),
                "{p:?} {q:?}"
            );
            assert_eq!(ends_with_path(p, q), path.ends_with(other), "{p:?} {q:?}");
            assert_eq!(join(p, q), path.join(other).to_str().unwrap(), "{p:?} {q:?}");
            assert_eq!(
                strip_prefix(p, q),
                path.strip_prefix(other)
                    .ok()
                    .map(|r| r.to_str().unwrap().to_string()),
                "{p:?} {q:?}"
            );
        }
    }
    assert_eq!(parent_or_root("/"), "/");
    assert_eq!(parent_or_root("/a/b"), "/a");
}

#[test]
fn text_functions_agree_with_the_standard_library() {
    let samples = [
        "", "a", "aXb", "XX", "aXbXXc", "  pad\t\n", "eins\r\nzwei\n", "\u{e9}X\u{2603}", "XaX",
    ];
    for s in samples {
        for n in ["X", "XX", "a", "\n"] {
            assert_eq!(text::contains(s, n), s.contains(n));
            assert_eq!(text::starts_with(s, n), s.starts_with(n));
            assert_eq!(text::ends_with(s, n), s.ends_with(n));
            assert_eq!(
                text::split_once(s, n),
                s.split_once(n).map(|(a, b)| (a.to_string(), b.to_string()))
            );
            assert_eq!(
                text::split(s, n),
                s.split(n).map(String::from).collect::<Vec<String>>()
            );
            assert_eq!(text::count_matches(s, n), s.matches(n).count());
            assert_eq!(text::replace(s, n, "--"), s.replace(n, "--"));
        }
        assert_eq!(
            text::lines(s),
            s.lines().map(String::from).collect::<Vec<String>>()
        );
        assert_eq!(text::trim(s), s.trim());
        assert_eq!(text::to_ascii_lowercase(s), s.to_ascii_lowercase());
        assert_eq!(text::pad_right(s, 6), format!("{s:<6}"));
        assert_eq!(text::pad_left(s, '0', 6), format!("{s:0>6}"));
    }
    assert_eq!(
        text::join(&vec!["a".to_string(), "b".to_string()], ", "),
        "a, b"
    );
    assert_eq!(text::repeat('=', 3), "===");
}

#[test]
fn numbers_are_written_and_read() {
    for n in [0, 9, 10, 4096, u64::MAX] {
        assert_eq!(text::to_decimal(n), n.to_string());
        assert_eq!(text::parse_bounded(&n.to_string(), u64::MAX), Some(n));
    }
    assert_eq!(text::to_wide_decimal(u128::MAX), u128::MAX.to_string());
    assert_eq!(text::parse_bounded("+7", 10), "+7".parse::<u64>().ok());
    assert_eq!(text::parse_bounded("", 10), None);
    assert_eq!(text::parse_bounded("-1", 10), None);
    assert_eq!(text::parse_bounded("007", 10), Some(7));
    assert_eq!(text::parse_bounded("11", 10), None);
    assert_eq!(text::parse_bounded("18446744073709551616", u64::MAX), None);
}

#[test]
fn bytes_become_text_and_text_becomes_bytes() {
    assert_eq!(bytes_of("a\u{e9}\u{2603}\u{1f600}"), "a\u{e9}\u{2603}\u{1f600}".as_bytes());
    assert_eq!(lossy(&b"ok\xff!".to_vec()), "ok\u{fffd}!");
    assert!(same_bytes(&vec![1, 2], &vec![1, 2]));
    assert!(!same_bytes(&vec![1, 2], &vec![1]));
    assert_eq!(copy_bytes(&vec![3, 4]), vec![3, 4]);
}

#[test]
fn sorting_is_stable() {
    let keys = vec![vec![2], vec![1, 5], vec![2], vec![1], vec![]];
    assert_eq!(sort_order(&keys), vec![4, 3, 1, 0, 2]);
}

#[test]
fn keys_are_ordered_as_what_they_stand_for() {
    let texts = ["", "a", "a b", "ab", "b", "é", "\u{ffff}", "\u{10000}", "a\0", "A"];
    let key_of = |push: fn(&mut Vec<u64>, &str), text: &str| {
        let mut key = Vec::new();
        push(&mut key, text);
        key
    };
    for a in texts {
        for b in texts {
            let (x, y) = (key_of(push_text_key, a), key_of(push_text_key, b));
            assert_eq!(less(&x, &y), a < b, "{a:?} {b:?}");
            assert_eq!(x == y, a == b, "{a:?} {b:?}");
        }
    }
    for a in PATHS {
        for b in PATHS {
            let (x, y) = (key_of(push_path_key, a), key_of(push_path_key, b));
            assert_eq!(less(&x, &y), Path::new(a) < Path::new(b), "{a:?} {b:?}");
            assert_eq!(x == y, Path::new(a) == Path::new(b), "{a:?} {b:?}");
        }
    }
}

#[test]
fn dates_are_those_of_the_calendar() {
    assert_eq!(
        utc_parts(951_827_696),
        UtcParts {
            year: 2000,
            month: 2,
            day: 29,
            hour: 12,
            minute: 34,
            second: 56,
            epoch_day: 11_016,
        }
    );
    let first = utc_parts(0);
    assert_eq!((first.year, first.month, first.day), (1970, 1, 1));
    let later = utc_parts(4_102_444_800);
    assert_eq!((later.year, later.month, later.day), (2100, 1, 1));
}

#[test]
fn timestamps_tell_how_long_ago() {
    let epoch = 951_827_696;
    assert_eq!(format_timestamp(epoch, epoch + 1), "12:34:56");
    assert!(format_timestamp(epoch, epoch + 86_400).starts_with("Yesterday "));
    let old = format_timestamp(epoch, epoch + 400 * 86_400);
    assert!(old.contains("2000"));
}
