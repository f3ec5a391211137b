use std::path::Path;

use parallel_rustc::names::NameSet;
use parallel_rustc::paths::{file_name, parent, parent_dir};
use parallel_rustc::text::{
    contains, cut_at_first, cut_at_last, decimal_text, hex8_text, join, replace_char, split_at_char,
    starts_with, strip_prefix, strip_suffix, trim, trim_end_char,
};

#[test]
fn paths_come_apart_as_std_takes_them() {
    for p in [
        "", "/", "//", ".", "./", "..", "../", "a", "a/", "a//", "/a", "/a/", "//a", "a/b", "a//b",
        "a/b/", "a/./b", "a/b/.", "a/b/./", "a/..", "a/../b", "./a", "./a/b", ".//a", ".a", "a.b",
        "/.", "/..", "/./a", "././a", "/t/deps//libx.rlib", "...", "a/...", "é/漢",
    ] {
        let path = Path::new(p);
        assert_eq!(
            file_name(p).as_deref(),
            path.file_name().map(|s| s.to_str().unwrap()),
            "file name of {p:?}"
        );
        assert_eq!(
            parent(p).as_deref(),
            path.parent().map(|s| s.to_str().unwrap()),
            "parent of {p:?}"
        );
    }
    assert_eq!(parent_dir("/libx.rlib"), "");
    assert_eq!(parent_dir("/"), "");
}

#[test]
fn text_functions_do_what_std_does() {
    for s in ["", " a ", "a-b-c", "--", "\u{a0}x\u{2003}\n", "αβγ", "a=b=c", "lib.rlib"] {
        assert_eq!(trim(s), s.trim(), "{s:?}");
        assert_eq!(trim_end_char(s, '-'), s.trim_end_matches('-'), "{s:?}");
        assert_eq!(replace_char(s, '-', '_'), s.replace('-', "_"), "{s:?}");
        assert_eq!(split_at_char(s, '-'), s.split('-').collect::<Vec<_>>(), "{s:?}");
        assert_eq!(
            cut_at_first(s, '='),
            s.split_once('=').map(|(a, b)| (a.to_string(), b.to_string())),
            "{s:?}"
        );
        assert_eq!(
            cut_at_last(s, '='),
            s.rsplit_once('=').map(|(a, b)| (a.to_string(), b.to_string())),
            "{s:?}"
        );
        for t in ["", "a", "lib", ".rlib", "b-c", "β"] {
            assert_eq!(contains(s, t), s.contains(t), "{s:?} {t:?}");
            assert_eq!(starts_with(s, t), s.starts_with(t), "{s:?} {t:?}");
            assert_eq!(strip_prefix(s, t).as_deref(), s.strip_prefix(t), "{s:?} {t:?}");
            assert_eq!(strip_suffix(s, t).as_deref(), s.strip_suffix(t), "{s:?} {t:?}");
        }
    }
}

#[test]
fn white_space_is_what_std_trims() {
    for code in 0..0x3100u32 {
        if let Some(c) = char::from_u32(code) {
            let s = format!("{c}x{c}");
            assert_eq!(trim(&s), s.trim(), "{code:x}");
        }
    }
}

#[test]
fn numbers_are_written_as_std_writes_them() {
    for n in [0, 7, 10, 99, 100, 12345678901234567, usize::MAX] {
        assert_eq!(decimal_text(n), n.to_string());
    }
    for n in [0u32, 1, 0xabcdef, 0x811c9dc5, u32::MAX] {
        assert_eq!(hex8_text(n), format!("{n:08x}"));
    }
}

#[test]
fn splitting_undoes_joining() {
    let parts: Vec<String> = ["a", "", "bc"].iter().map(|s| s.to_string()).collect();
    assert_eq!(join(&parts, ","), "a,,bc");
    assert_eq!(split_at_char("a,,bc", ','), parts);
}

#[test]
fn sets_of_names_are_ordered() {
    let mut s = NameSet::new();
    for n in ["b", "a", "c", "a", "B", "é"] {
        s.insert(n);
    }
    assert_eq!(s.names, vec!["B", "a", "b", "c", "é"]);
    s.remove("b");
    s.remove("zz");
    assert!(s.contains("a") && !s.contains("b"));
    assert_eq!(s.len(), 4);
    assert_eq!(s.comma_separated(), "B,a,c,é");
    assert!(!s.is_empty());
}
