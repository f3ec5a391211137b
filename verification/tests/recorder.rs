use parallel_rustc::capture::{capture_env, coordinator_keys, wrapper_keys, write_record};
use parallel_rustc::json::{Entry, Item};
use parallel_rustc::recorder::{
    assign_phases, build_unit, extract_crate_name, normalize, parse_recorded, read_record, RustcUnit,
};

#[test]
fn parse_single_invocation() {
    let argv = vec![
        "/usr/bin/rustc".to_string(),
        "--crate-name".to_string(),
        "foo".to_string(),
        "--crate-type".to_string(),
        "lib".to_string(),
        "--out-dir".to_string(),
        "/tmp/target/deps".to_string(),
        "--emit".to_string(),
        "dep-info,metadata,link".to_string(),
        "src/lib.rs".to_string(),
    ];
    let u = build_unit(argv, "/tmp".to_string(), vec![]);
    assert_eq!(u.crate_name, "foo");
    assert_eq!(u.out_dir, "/tmp/target/deps");
    assert_eq!(u.crate_type, "lib");
    assert_eq!(u.src, "src/lib.rs");
    assert_eq!(u.cwd, "/tmp");
}

#[test]
fn extract_names() {
    assert_eq!(extract_crate_name("libfoo-abc123def456.rlib").as_deref(), Some("foo"));
    assert_eq!(extract_crate_name("libfoo_bar-abc.rmeta").as_deref(), Some("foo_bar"));
    assert_eq!(extract_crate_name("foo-abc.so").as_deref(), Some("foo"));
}

fn u(name: &str, out: &str, externs: &[&str]) -> RustcUnit {
    RustcUnit {
        args: vec![],
        cwd: "/t".into(),
        env: vec![],
        crate_name: name.into(),
        out_dir: out.into(),
        externs: externs.iter().map(|s| s.to_string()).collect(),
        emit: "link".into(),
        crate_type: "lib".into(),
        src: format!("{name}.rs"),
    }
}

#[test]
fn extern_edges_form_phases() {
    let foo = u("foo", "/t/deps", &[]);
    let bar = u("bar", "/t/deps", &[]);
    let baz = u(
        "baz",
        "/t/deps",
        &["/t/deps/libfoo-abc123.rlib", "/t/deps/libbar-def456.rlib"],
    );
    let phases = assign_phases(&[foo, bar, baz]);
    assert_eq!(phases.len(), 2, "phases: {phases:?}");
    assert!(phases[0].contains(&0));
    assert!(phases[0].contains(&1));
    assert_eq!(phases[1], vec![2]);
}

#[test]
fn unrelated_siblings_share_phase() {
    let a = u("a", "/t/deps", &[]);
    let b = u("b", "/t/deps", &[]);
    let phases = assign_phases(&[a, b]);
    assert_eq!(phases.len(), 1);
    assert_eq!(phases[0].len(), 2);
}

#[test]
fn empty_input_gives_empty_phases() {
    let phases = assign_phases(&[]);
    assert!(phases.is_empty());
}

#[test]
fn names_without_a_hash_or_an_extension() {
    assert_eq!(extract_crate_name("libfoo.rlib").as_deref(), Some("foo"));
    assert_eq!(extract_crate_name("foo").as_deref(), Some("foo"));
    assert_eq!(extract_crate_name("lib-abc.rlib").as_deref(), Some("-abc"));
    assert_eq!(extract_crate_name("lib.rlib"), None);
    assert_eq!(extract_crate_name("").as_deref(), None);
    assert_eq!(extract_crate_name("liba.b-c.so").as_deref(), Some("a"));
}

#[test]
fn directories_lose_their_last_slashes() {
    assert_eq!(normalize("/t/deps//"), "/t/deps");
    assert_eq!(normalize("/"), "");
}

fn strings(v: &[&str]) -> Vec<String> {
    v.iter().map(|s| s.to_string()).collect()
}

#[test]
fn arguments_with_equals_signs() {
    let u = build_unit(
        strings(&[
            "rustc",
            "--crate-name=a",
            "--crate-name",
            "b",
            "--extern=x=/d/libx.rlib",
            "--extern",
            "std",
            "--extern",
            "y=/d/liby=1.rlib",
            "--out-dir=/d",
            "--emit=link",
            "--crate-type=bin",
            "-C",
            "opt-level=3",
            "",
            "main.rs",
            "--cfg=feature",
            "--out-dir",
        ]),
        String::new(),
        vec![("K".into(), "V".into())],
    );
    assert_eq!(u.crate_name, "b");
    assert_eq!(u.externs, vec!["/d/libx.rlib", "/d/liby=1.rlib"]);
    assert_eq!(u.out_dir, "/d");
    assert_eq!(u.emit, "link");
    assert_eq!(u.crate_type, "bin");
    assert_eq!(u.src, "opt-level=3");
    assert_eq!(u.args.len(), 18);
    assert_eq!(u.env, vec![("K".to_string(), "V".to_string())]);
}

#[test]
fn labels() {
    let mut unit = u("foo", "/t", &[]);
    assert_eq!(unit.label(), "foo (lib)");
    unit.crate_type = String::new();
    assert_eq!(unit.label(), "foo");
    unit.crate_name = String::new();
    unit.src = "src/main.rs".into();
    assert_eq!(unit.label(), "main.rs");
    unit.src = "..".into();
    assert_eq!(unit.label(), "<unknown>");
}

#[test]
fn the_latest_earlier_producer_is_the_dependency() {
    let units = vec![
        u("foo", "/t/deps", &[]),
        u("bar", "/t/deps/", &["/t/deps/libfoo-1.rlib"]),
        u("foo", "/t/deps", &["/t/deps//libbar-2.rlib"]),
        u("app", "/t/deps", &["/t/deps/libfoo-3.rlib", "/t/deps/./libfoo-4.rmeta"]),
        u("early", "/t/deps", &["/t/deps/liblate-1.rlib"]),
        u("late", "/t/deps", &["/elsewhere/libfoo-1.rlib", ".."]),
    ];
    let phases = assign_phases(&units);
    assert_eq!(phases, vec![vec![0, 4, 5], vec![1], vec![2], vec![3]]);
}

#[test]
fn a_crate_name_with_a_slash_is_no_producer_of_a_nested_directory() {
    let units = vec![
        u("b/c", "/a", &[]),
        u("app", "/t", &["/a/b/libc.rlib"]),
    ];
    assert_eq!(assign_phases(&units), vec![vec![0, 1]]);
}

#[test]
fn records_are_parsed_in_order() {
    let contents = concat_lines(&[
        r#"["/ws",[["A","1"],["B"],"x",["C",2],["D","4","5"]],"rustc","--crate-name","foo","src/lib.rs"]"#,
        "",
        "   ",
        r#"["/ws",[]]"#,
        r#"["/ws",[],7,null]"#,
        r#"[5,"no env","rustc","é\n\"q\""]"#,
    ]);
    let units = parse_recorded(&contents).unwrap();
    assert_eq!(units.len(), 2);
    assert_eq!(units[0].cwd, "/ws");
    assert_eq!(units[0].env, vec![("A".to_string(), "1".to_string()), ("D".to_string(), "4".to_string())]);
    assert_eq!(units[0].args, vec!["rustc", "--crate-name", "foo", "src/lib.rs"]);
    assert_eq!(units[0].crate_name, "foo");
    assert_eq!(units[1].cwd, "");
    assert_eq!(units[1].args, vec!["rustc", "é\n\"q\""]);
    assert!(parse_recorded("").unwrap().is_empty());
}

fn concat_lines(lines: &[&str]) -> String {
    lines.iter().map(|l| format!("{l}\r\n")).collect()
}

#[test]
fn a_line_that_is_no_json_is_an_error() {
    let e = parse_recorded("\n[\"a\",[],\"r\"]\n[1,\n{}").unwrap_err();
    assert!(e.starts_with("line 3: parse JSON: "), "{e}");
    assert_eq!(
        parse_recorded("{\"a\":1}\n[").unwrap_err(),
        "line 1: expected JSON array"
    );
}

#[test]
fn parsed_lines_are_read_without_the_json() {
    let text = |s: &str| Entry { text: Some(s.to_string()), items: None };
    let env = Entry {
        text: None,
        items: Some(vec![
            Item { text: None, texts: Some(vec![Some("K".into()), Some("V".into())]) },
            Item { text: None, texts: Some(vec![None, Some("V".into())]) },
        ]),
    };
    let entries = vec![text("/w"), env, text("rustc"), text("a.rs")];
    let unit = read_record(Ok(Some(entries)), 1).unwrap().unwrap();
    assert_eq!(unit.cwd, "/w");
    assert_eq!(unit.src, "a.rs");
    assert_eq!(unit.env, vec![("K".to_string(), "V".to_string())]);
    assert!(read_record(Ok(Some(vec![text("/w"), text("x")])), 1).unwrap().is_none());
    assert_eq!(read_record(Ok(None), 12).unwrap_err(), "line 12: expected JSON array");
    assert_eq!(read_record(Err("bad".into()), 3).unwrap_err(), "line 3: parse JSON: bad");
}

#[test]
fn written_records_read_back() {
    let env = vec![
        ("OUT_DIR".to_string(), "a\"b\\c\n\t\u{1}".to_string()),
        ("DEP_X".to_string(), "é漢🦀".to_string()),
    ];
    let argv = strings(&["/bin/rustc", "--crate-name", "foo", "--out-dir", "/d", "[\"weird\"]\r\n", "x.rs"]);
    let line = write_record("/some dir".to_string(), env.clone(), &argv).unwrap();
    assert!(line.starts_with('[') && line.ends_with(']') && !line.contains('\n'));
    let second = write_record(String::new(), vec![], &strings(&["rustc"])).unwrap();
    assert_eq!(second, r#"["",[],"rustc"]"#);
    let units = parse_recorded(&format!("{line}\n{second}\n")).unwrap();
    assert_eq!(units.len(), 2);
    assert_eq!(units[0].cwd, "/some dir");
    assert_eq!(units[0].env, env);
    assert_eq!(units[0].args, argv);
    assert_eq!(units[0].crate_name, "foo");
    assert_eq!(units[1].args, vec!["rustc"]);
}

fn var(k: &str, v: &str) -> (String, String) {
    (k.to_string(), v.to_string())
}

#[test]
fn the_environment_is_captured_by_name_and_prefix() {
    let vars = vec![
        var("DEP_Z_ROOT", "z"),
        var("HOME", "/root"),
        var("OUT_DIR", "/out"),
        var("CARGO_CFG_UNIX", ""),
        var("CARGO", "/bin/cargo"),
        var("CARGO_FEATURE_STD", "1"),
        var("CARGO_BIN_EXE_app", "/app"),
        var("DEP_PROTOBUF_INCLUDE", "/inc"),
        var("CARGO_PKG_NAMES", "no"),
        var("OUT_DIR", "second"),
    ];
    let generated = vec![
        var("DEP_Z_ROOT", "z"),
        var("CARGO_CFG_UNIX", ""),
        var("CARGO_FEATURE_STD", "1"),
        var("CARGO_BIN_EXE_app", "/app"),
        var("DEP_PROTOBUF_INCLUDE", "/inc"),
    ];
    let mut expected = vec![var("CARGO", "/bin/cargo"), var("OUT_DIR", "/out")];
    expected.extend(generated.clone());
    assert_eq!(capture_env(&coordinator_keys(), &vars), expected);
    let mut expected = vec![
        var("CARGO", "/bin/cargo"),
        var("OUT_DIR", "/out"),
        var("DEP_PROTOBUF_INCLUDE", "/inc"),
    ];
    expected.extend(generated);
    assert_eq!(capture_env(&wrapper_keys(), &vars), expected);
}

#[test]
fn captured_names() {
    let keys = coordinator_keys();
    assert_eq!(keys.len(), 35);
    assert_eq!(keys[0], "CARGO");
    assert_eq!(keys[34], "CARGO_ENCODED_RUSTFLAGS");
    assert_eq!(wrapper_keys().len(), 36);
    assert_eq!(wrapper_keys()[35], "DEP_PROTOBUF_INCLUDE");
}
