use parallel_rustc::classifier::classify_units;
use parallel_rustc::coordinator::{
    begin, find_value, named_in, proceed, rewrite_emit_metadata, should_passthrough, Action, Event,
    Stage,
};

fn strings(v: &[&str]) -> Vec<String> {
    v.iter().map(|s| s.to_string()).collect()
}

#[test]
fn values_of_flags() {
    let args = strings(&["--edition=2021", "--crate-name", "foo", "--crate-name=bar", "--emit=a=b"]);
    assert_eq!(find_value(&args, "--crate-name").as_deref(), Some("foo"));
    assert_eq!(find_value(&args, "--edition").as_deref(), Some("2021"));
    assert_eq!(find_value(&args, "--emit").as_deref(), Some("a=b"));
    assert_eq!(find_value(&args, "--out-dir"), None);
    assert_eq!(find_value(&strings(&["--emit"]), "--emit"), None);
    assert_eq!(find_value(&strings(&["--emit="]), "--emit").as_deref(), Some(""));
}

#[test]
fn probes_and_build_scripts_pass_through() {
    for probe in ["-vV", "-V", "--version", "--print", "--print=cfg"] {
        assert!(should_passthrough(&strings(&["--crate-name", "foo", probe])), "{probe}");
    }
    assert!(should_passthrough(&strings(&["--crate-name", "build_script_build"])));
    assert!(should_passthrough(&strings(&["src/lib.rs"])));
    assert!(!should_passthrough(&strings(&["--crate-name", "foo", "--printer"])));
    assert!(!should_passthrough(&strings(&["--crate-name=build_scripts"])));
}

#[test]
fn emit_is_rewritten_everywhere() {
    assert_eq!(
        rewrite_emit_metadata(&strings(&["a", "--emit", "link", "--emit=obj", "b", "--emit"])),
        vec!["a", "--emit=dep-info,metadata", "--emit=dep-info,metadata", "b", "--emit"]
    );
    let args = strings(&["--emit=dep-info,metadata,link", "x.rs"]);
    let rewritten = rewrite_emit_metadata(&args);
    assert_eq!(find_value(&rewritten, "--emit").as_deref(), Some("dep-info,metadata"));
}

fn lib(name: &str) -> Vec<String> {
    strings(&["--crate-name", name, "--emit=dep-info,metadata,link", "src/lib.rs"])
}

#[test]
fn library_crates_compile_metadata_and_are_queued() {
    let (stage, action) = begin(&lib("foo"), true, "");
    assert_eq!(stage, Stage::Compiling);
    match action {
        Action::RunMetadata(args) => assert_eq!(
            args,
            vec!["--crate-name", "foo", "--emit=dep-info,metadata", "src/lib.rs"]
        ),
        _ => panic!("not compiled"),
    }
    let (stage, action) = proceed(stage, Event::Compiled(0));
    assert!(matches!(action, Action::Enqueue));
    assert_eq!(stage, Stage::QueueingCompiled);
    let (stage, action) = proceed(stage, Event::Queued(true));
    assert!(matches!(action, Action::Exit(0)));
    assert_eq!(stage, Stage::Finished);
}

#[test]
fn failures_end_the_invocation() {
    assert!(matches!(proceed(Stage::Compiling, Event::Compiled(101)), (Stage::Finished, Action::Exit(101))));
    assert!(matches!(
        proceed(Stage::QueueingCompiled, Event::Queued(false)),
        (Stage::Finished, Action::Exit(1))
    ));
    assert!(matches!(
        proceed(Stage::QueueingUncompiled, Event::Queued(false)),
        (Stage::Finished, Action::RunRustc)
    ));
}

#[test]
fn linked_crates_are_queued_uncompiled() {
    let args = strings(&["--crate-name", "app", "--emit", "dep-info,link"]);
    assert!(matches!(begin(&args, true, ""), (Stage::QueueingUncompiled, Action::Enqueue)));
    assert!(matches!(
        proceed(Stage::QueueingUncompiled, Event::Queued(true)),
        (Stage::Finished, Action::Exit(0))
    ));
}

#[test]
fn everything_else_runs_as_it_is() {
    assert!(matches!(begin(&lib("foo"), false, ""), (Stage::Finished, Action::RunRustc)));
    let args = strings(&["--crate-name", "foo", "--emit=dep-info"]);
    assert!(matches!(begin(&args, true, ""), (Stage::Finished, Action::RunRustc)));
    let args = strings(&["--crate-name", "foo"]);
    assert!(matches!(begin(&args, true, ""), (Stage::Finished, Action::RunRustc)));
    assert!(matches!(begin(&lib("build_script_main"), true, ""), (Stage::Finished, Action::RunRustc)));
}

#[test]
fn crates_that_need_their_rlib_run_at_once() {
    assert!(matches!(begin(&lib("quote"), true, "proc_macro2,quote,syn"), (Stage::Finished, Action::RunRustc)));
    assert!(matches!(begin(&lib("quot"), true, "proc_macro2,quote,syn"), (Stage::Compiling, _)));
    let c = classify_units(&[]);
    assert!(matches!(begin(&lib("quote"), true, &c.needs_rlib.comma_separated()), (Stage::Compiling, _)));
}

#[test]
fn names_in_a_list() {
    assert!(named_in("a,b,c", "b"));
    assert!(!named_in("a,b,c", "a,b"));
    assert!(!named_in("", ""));
    assert!(!named_in("a,,b", ""));
}
