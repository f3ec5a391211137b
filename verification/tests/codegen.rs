use std::time::Duration;

use parallel_rustc::builder_v5::{
    classification_or_none, coordinator_candidates, extract_crate_name, forward_args,
    locate_coordinator, locate_program, needs_rlib_csv, norm, parse_queue, plan_codegen, plan_replay,
    program_candidates, queue_file_path, read_queue_line, replay_env, summarize, Members,
};
use parallel_rustc::capture::write_record;
use parallel_rustc::json::{Entry, Item};
use parallel_rustc::recorder::RustcUnit;

fn unit(name: &str, externs: &[&str]) -> RustcUnit {
    RustcUnit {
        args: vec![],
        cwd: "/t".into(),
        env: vec![],
        crate_name: name.into(),
        out_dir: "/t/deps".into(),
        externs: externs.iter().map(|s| format!("/t/deps/lib{s}-0123456789abcdef.rmeta")).collect(),
        emit: "link".into(),
        crate_type: "lib".into(),
        src: format!("{name}.rs"),
    }
}

#[test]
fn a_replay_repeats_the_invocation() {
    let mut u = unit("x", &[]);
    assert_eq!(plan_replay(&u).err().unwrap(), "empty argv");
    u.args = vec!["rustc".into(), "x.rs".into(), "-O".into()];
    u.env = vec![("MAKEFLAGS".into(), "-j".into()), ("A".into(), "1".into())];
    let r = plan_replay(&u).unwrap();
    assert_eq!(r.program, "rustc");
    assert_eq!(r.args, vec!["x.rs", "-O"]);
    assert_eq!((r.out_dir.as_deref(), r.cwd.as_deref()), (Some("/t/deps"), Some("/t")));
    assert_eq!(r.env, vec![("A".to_string(), "1".to_string())]);
    u.out_dir = String::new();
    u.cwd = String::new();
    let r = plan_replay(&u).unwrap();
    assert_eq!((r.out_dir, r.cwd), (None, None));
}

#[test]
fn units_start_when_all_they_depend_on_has_finished() {
    // The queue is in no particular order: a unit may depend on a later one.
    let units = vec![
        unit("top", &["left", "right"]),
        unit("base", &[]),
        unit("left", &["base"]),
        unit("right", &["base"]),
        unit("solo", &[]),
    ];
    let mut run = plan_codegen(&units, vec![true; 5], 8);
    assert_eq!(run.next_ready(), Some(1));
    assert_eq!(run.next_ready(), Some(4));
    assert_eq!(run.next_ready(), None);
    assert_eq!(run.running(), 2);
    run.complete(4);
    assert_eq!(run.next_ready(), None);
    run.complete(1);
    assert_eq!(run.next_ready(), Some(2));
    assert_eq!(run.next_ready(), Some(3));
    run.complete(3);
    assert_eq!(run.next_ready(), None);
    run.complete(2);
    assert_eq!(run.next_ready(), Some(0));
    assert!(!run.idle());
    run.complete(0);
    assert!(run.idle());
    assert_eq!(run.finish(), Ok(()));
}

#[test]
fn no_more_units_run_at_once_than_allowed() {
    let units: Vec<RustcUnit> = (0..5).map(|i| unit(&format!("u{i}"), &[])).collect();
    let mut run = plan_codegen(&units, vec![true; 5], 2);
    assert_eq!((run.next_ready(), run.next_ready(), run.next_ready()), (Some(0), Some(1), None));
    run.complete(1);
    assert_eq!((run.next_ready(), run.next_ready()), (Some(2), None));
    let mut serial = plan_codegen(&units, vec![true; 5], 0);
    assert_eq!((serial.next_ready(), serial.next_ready()), (Some(0), None));
}

#[test]
fn units_that_do_not_run_count_as_done() {
    let units = vec![unit("a", &[]), unit("b", &["a"]), unit("c", &["b"])];
    let mut run = plan_codegen(&units, vec![true, false, true], 4);
    assert_eq!((run.next_ready(), run.next_ready(), run.next_ready()), (Some(0), Some(2), None));
    run.complete(0);
    assert_eq!(run.next_ready(), None);
    run.complete(2);
    assert_eq!(run.finish(), Ok(()));
    let mut none = plan_codegen(&units, vec![false; 3], 4);
    assert_eq!(none.next_ready(), None);
    assert_eq!(none.finish(), Ok(()));
}

#[test]
fn a_circle_is_an_error() {
    let units = vec![unit("a", &["b"]), unit("b", &["a"]), unit("c", &[]), unit("d", &["a", "d"])];
    let mut run = plan_codegen(&units, vec![true; 4], 4);
    assert_eq!((run.next_ready(), run.next_ready()), (Some(2), None));
    run.complete(2);
    assert!(run.idle());
    assert_eq!(
        run.finish(),
        Err("DAG executor: 1/4 completed (dependency cycle?)".to_string())
    );
    // Without one of its units there is no circle left.
    let mut run = plan_codegen(&units, vec![false, true, true, true], 4);
    assert_eq!((run.next_ready(), run.next_ready(), run.next_ready()), (Some(1), Some(2), Some(3)));
    for i in 1..4 {
        run.complete(i);
    }
    assert_eq!(run.finish(), Ok(()));
}

#[test]
fn every_producer_of_a_name_is_a_dependency() {
    let units = vec![unit("foo", &[]), unit("app", &["foo", "foo"]), unit("foo", &[])];
    let mut run = plan_codegen(&units, vec![true; 3], 4);
    assert_eq!((run.next_ready(), run.next_ready(), run.next_ready()), (Some(0), Some(2), None));
    run.complete(0);
    assert_eq!(run.next_ready(), None);
    run.complete(2);
    assert_eq!(run.next_ready(), Some(1));
}

#[test]
fn library_names() {
    assert_eq!(extract_crate_name("libfoo-0123456789abcdef.rlib").as_deref(), Some("foo"));
    assert_eq!(extract_crate_name("libfoo_bar-ABCDEF01.rmeta").as_deref(), Some("foo_bar"));
    assert_eq!(extract_crate_name("libfoo-abc.so").as_deref(), Some("foo-abc"));
    assert_eq!(extract_crate_name("libfoo-0123456g.d").as_deref(), Some("foo-0123456g"));
    assert_eq!(extract_crate_name("libfoo.rlib").as_deref(), Some("foo"));
    assert_eq!(extract_crate_name("foo-0123456789abcdef.rlib"), None);
    assert_eq!(extract_crate_name("libfoo.a"), None);
    assert_eq!(norm("/t/deps/"), "/t/deps");
}

#[test]
fn stale_jobservers_are_left_out() {
    let mut u = unit("a", &[]);
    let var = |k: &str| (k.to_string(), "v".to_string());
    u.env = vec![var("CARGO_MAKEFLAGS"), var("A"), var("MAKEFLAGS"), var("MAKEFLAGS_X")];
    assert_eq!(replay_env(&u), vec![var("A"), var("MAKEFLAGS_X")]);
}

#[test]
fn queues_of_records_and_of_objects() {
    let argv: Vec<String> = ["rustc", "--crate-name", "foo"].iter().map(|s| s.to_string()).collect();
    let record = write_record("/w".into(), vec![("K".into(), "V".into())], &argv).unwrap();
    let contents = format!(
        "{record}\n\n{}\n{}\n3\n",
        r#"{"cwd":"/x","env":[["A","1"],["B"]],"argv":["rustc",5,"--crate-name=bar"]}"#,
        r#"{"cwd":"/y","argv":[]}"#,
    );
    let units = parse_queue(&contents).unwrap();
    assert_eq!(units.len(), 2);
    assert_eq!((units[0].crate_name.as_str(), units[0].cwd.as_str()), ("foo", "/w"));
    assert_eq!(units[0].env, vec![("K".to_string(), "V".to_string())]);
    assert_eq!((units[1].crate_name.as_str(), units[1].cwd.as_str()), ("bar", "/x"));
    assert_eq!(units[1].args, vec!["rustc", "--crate-name=bar"]);
    assert_eq!(units[1].env, vec![("A".to_string(), "1".to_string())]);
    let e = parse_queue("\n{").err().unwrap();
    assert!(e.starts_with("queue line 2: "), "{e}");
}

#[test]
fn queue_lines_are_read_without_the_json() {
    let argv = Entry {
        text: None,
        items: Some(vec![
            Item { text: Some("rustc".into()), texts: None },
            Item { text: Some("a.rs".into()), texts: None },
        ]),
    };
    let members = Members { cwd: None, env: None, argv: Some(argv) };
    let u = read_queue_line(Ok(None), &members, 1).unwrap().unwrap();
    assert_eq!((u.src.as_str(), u.cwd.as_str(), u.env.len()), ("a.rs", "", 0));
    let none = Members { cwd: None, env: None, argv: None };
    assert!(read_queue_line(Ok(None), &none, 1).unwrap().is_none());
    assert!(read_queue_line(Ok(Some(vec![])), &members, 1).unwrap().is_none());
    assert_eq!(read_queue_line(Err("bad".into()), &members, 4).err().unwrap(), "queue line 4: bad");
}

#[test]
fn forward_pass_settings() {
    assert_eq!(forward_args(true), vec!["build", "--release"]);
    assert_eq!(forward_args(false), vec!["build"]);
    assert_eq!(queue_file_path(12, 345), "/tmp/parallel-rustc-queue-12345.jsonl");
    let c = classification_or_none(Err("x".into()));
    assert_eq!((c.needs_rlib.len(), c.defer_codegen.len(), c.total_units), (0, 0, 0));
    assert_eq!(needs_rlib_csv(&c), "");
}

#[test]
fn summaries() {
    let s = summarize(Duration::from_secs(9), Duration::from_secs(5), Duration::from_secs(4), 7);
    assert_eq!((s.queued_units, s.phases, s.max_phase_width), (7, 1, 7));
    assert_eq!(s.clone().total, Duration::from_secs(9));
    let s = summarize(Duration::from_secs(1), Duration::from_secs(1), Duration::ZERO, 0);
    assert_eq!((s.queued_units, s.phases, s.max_phase_width), (0, 0, 0));
}

#[test]
fn nothing_starts_after_a_failure() {
    let units = vec![unit("base", &[]), unit("other", &[]), unit("top", &["base"])];
    let mut plan = plan_codegen(&units, vec![true; 3], 1);
    assert_eq!(plan.next_ready(), Some(0));
    plan.fail("rustc failed for base".into());
    assert_eq!(plan.next_ready(), None);
    assert_eq!(plan.running(), 1);
    plan.fail("later".into());
    assert_eq!(plan.finish(), Err("rustc failed for base".to_string()));
}

#[test]
fn the_coordinator_is_looked_for_in_order() {
    let all = coordinator_candidates(Some("/opt/c".into()), Some("/usr/bin".into()));
    assert_eq!(
        all,
        vec![
            "/opt/c",
            "/usr/bin/parallel-rustc-coordinator",
            "target/release/parallel-rustc-coordinator",
            "target/debug/parallel-rustc-coordinator",
        ]
    );
    assert_eq!(locate_coordinator(&all, &vec![false, true, true, false]).unwrap(), all[1]);
    let e = locate_coordinator(&all, &vec![false; 4]).unwrap_err();
    assert_eq!(e, "parallel-rustc-coordinator not found");
    let few = program_candidates("w", None, Some("/".into()));
    assert_eq!(few, vec!["/w", "target/release/w", "target/debug/w"]);
    assert_eq!(locate_program("w", &few, &vec![false; 3]).unwrap_err(), "w not found");
    assert_eq!(program_candidates("w", None, None).len(), 2);
}
