use std::time::Duration;

use parallel_rustc::bench::{bench_steps, phase_lines, BenchStep};
use parallel_rustc::builder::{
    build_steps, cargo_build_args, header_lines, max_width, BuildConfig, BuildStep,
};
use parallel_rustc::builder_v4::{
    fnv32, iso_path, packages_to_drive, pkg_spec, plan_build, sanitize, summarize, V4Step,
};
use parallel_rustc::cli::{graph_and_phases, parse_strategy, run_plan, Strategy};
use parallel_rustc::metadata::{DepKind, DepRef, Metadata, Package, Resolve, ResolveNode};
use parallel_rustc::unit_graph::{UnitDep, UnitGraphUnit};
use parallel_rustc::waves::waves;

#[test]
fn fnv32_stable() {
    assert_eq!(fnv32(b"abc"), fnv32(b"abc"));
    assert_ne!(fnv32(b"abc"), fnv32(b"abd"));
}

#[test]
fn sanitize_converts_special() {
    assert_eq!(sanitize("hello-world"), "hello_world");
    assert_eq!(sanitize("proc_macro2"), "proc_macro2");
}

#[test]
fn fnv32_known_values() {
    assert_eq!(fnv32(b""), 0x811c9dc5);
    assert_eq!(fnv32(b"a"), 0xe40c292c);
    assert_eq!(fnv32(b"foobar"), 0xbf9cf968);
}

#[test]
fn sanitize_keeps_ascii_words_only() {
    assert_eq!(sanitize("aZ09_é.漢/"), "aZ09_____");
}

fn unit(name: &str, mode: &str, deps: &[usize]) -> UnitGraphUnit {
    UnitGraphUnit {
        pkg_id: format!("path+file:///tmp/{name}#0.1.0"),
        pkg_name: name.to_string(),
        pkg_version: Some("0.1.0".into()),
        name: name.to_string(),
        src_path: String::new(),
        edition: "2021".into(),
        crate_types: vec![],
        kind: vec!["lib".into()],
        mode: mode.into(),
        features: vec![],
        opt_level: "0".into(),
        debuginfo: 0,
        debug_assertions: false,
        incremental: false,
        panic: "unwind".into(),
        dependencies: deps
            .iter()
            .map(|&i| UnitDep { index: i, extern_crate_name: String::new() })
            .collect(),
    }
}

#[test]
fn package_specs_and_directories() {
    let mut u = unit("my-crate", "build", &[]);
    assert_eq!(pkg_spec(&u), "my-crate@0.1.0");
    u.pkg_id = "foobar".into();
    assert_eq!(iso_path(&u), "my_crate-bf9cf968");
    u.pkg_version = None;
    assert_eq!(pkg_spec(&u), "my-crate");
}

#[test]
fn each_package_of_a_phase_is_driven_once() {
    let units = vec![
        unit("a", "run-custom-build", &[]),
        unit("b", "build", &[]),
        unit("a", "build", &[]),
        unit("b", "build", &[]),
        unit("c", "check", &[]),
    ];
    assert_eq!(packages_to_drive(&units, &vec![0, 1, 2, 3, 4]), vec![1, 2]);
}

fn config(jobs: usize) -> BuildConfig {
    BuildConfig { manifest_path: None, release: false, jobs, workspace_only: false, batched: false }
}

fn describe(steps: &[V4Step]) -> Vec<String> {
    steps
        .iter()
        .map(|s| match s {
            V4Step::Start(line) => format!("start {line}"),
            V4Step::Seed(dirs) => format!("seed {}", dirs.len()),
            V4Step::Wave(builds) => {
                let specs: Vec<&str> = builds.iter().map(|b| b.spec.as_str()).collect();
                format!("wave {}", specs.join(" "))
            }
            V4Step::Batch(args, n) => format!("batch {n}: {}", args.join(" ")),
            V4Step::Merge(dirs) => format!("merge {}", dirs.len()),
            V4Step::End => "end".to_string(),
        })
        .collect()
}

fn three_and_one() -> Vec<UnitGraphUnit> {
    vec![
        unit("a", "build", &[]),
        unit("b", "build", &[]),
        unit("c", "build", &[]),
        unit("s", "run-custom-build", &[0]),
        unit("top", "build", &[1, 2, 3]),
    ]
}

#[test]
fn unit_graph_build_in_isolation() {
    let plan = plan_build(Ok(three_and_one()), &config(2)).unwrap();
    assert_eq!(
        describe(&plan.steps),
        vec![
            "start   phase 0 (3 pkgs)…",
            "seed 3",
            "wave a@0.1.0 b@0.1.0",
            "wave c@0.1.0",
            "merge 3",
            "end",
            "start   phase 2 (1 pkg)…",
            "seed 1",
            "wave top@0.1.0",
            "merge 1",
            "end",
        ]
    );
    match &plan.steps[2] {
        V4Step::Wave(builds) => {
            assert_eq!(builds[0].args, vec!["build", "-p", "a@0.1.0", "-j", "1"]);
            assert_eq!(builds[0].dir, iso_path(&unit("a", "build", &[])));
            assert_ne!(builds[0].dir, builds[1].dir);
        }
        _ => panic!("no wave"),
    }
    assert_eq!((plan.phases, plan.max_width, plan.max_phase_width), (3, 3, 3));
    assert_eq!((plan.units, plan.driven_units), (5, 4));
    assert_eq!(plan.final_args, Some(vec!["build".to_string()]));
    let s = summarize(&plan, Duration::from_secs(3), Duration::from_secs(2));
    assert_eq!((s.phases, s.max_phase_width, s.units, s.driven_units), (3, 3, 5, 4));
    assert_eq!((s.total, s.clone().compile), (Duration::from_secs(3), Duration::from_secs(2)));
}

#[test]
fn the_widest_phase_counts_packages() {
    // Four units in the first phase: two packages, one of them twice, and a script run.
    let units = vec![
        unit("a", "build", &[]),
        unit("a", "build", &[]),
        unit("b", "build", &[]),
        unit("s", "run-custom-build", &[]),
    ];
    let plan = plan_build(Ok(units), &config(2)).unwrap();
    assert_eq!((plan.max_width, plan.max_phase_width), (4, 2));
    assert_eq!(summarize(&plan, Duration::ZERO, Duration::ZERO).max_phase_width, 2);
}

#[test]
fn unit_graph_build_in_batches() {
    let mut cfg = config(4);
    cfg.batched = true;
    cfg.release = true;
    let plan = plan_build(Ok(three_and_one()), &cfg).unwrap();
    assert_eq!(
        describe(&plan.steps),
        vec![
            "start   phase 0 batched: 3 pkgs, -j4",
            "batch 3: build -p a@0.1.0 -p b@0.1.0 -p c@0.1.0 --release -j 4",
            "end",
            "start   phase 2 batched: 1 pkgs, -j4",
            "batch 1: build -p top@0.1.0 --release -j 4",
            "end",
        ]
    );
    assert_eq!(plan.final_args, None);
}

#[test]
fn unit_graph_build_errors() {
    assert_eq!(plan_build(Err("x".into()), &config(1)).err().unwrap(), "unit-graph: x");
    let e = plan_build(Ok(vec![unit("a", "build", &[0])]), &config(1)).err().unwrap();
    assert_eq!(e, "phase computation: unit graph contains a cycle: emitted 0 of 1 units");
}

fn id(name: &str) -> String {
    format!("registry+https://x#{name}@1.0.0")
}

fn meta(crates: &[(&str, &[&str])], members: &[&str]) -> Metadata {
    Metadata {
        packages: crates
            .iter()
            .map(|(n, _)| Package { id: id(n), name: n.to_string(), version: "1.0.0".into() })
            .collect(),
        workspace_members: members.iter().map(|m| id(m)).collect(),
        resolve: Resolve {
            nodes: crates
                .iter()
                .map(|(n, deps)| ResolveNode {
                    id: id(n),
                    dependencies: vec![],
                    deps: deps
                        .iter()
                        .map(|d| DepRef {
                            pkg: id(d),
                            name: d.to_string(),
                            dep_kinds: vec![DepKind { kind: None, target: None }],
                        })
                        .collect(),
                    features: vec![],
                })
                .collect(),
            root: None,
        },
        workspace_root: "/ws".into(),
    }
}

fn small() -> Metadata {
    meta(&[("cfg-if", &[]), ("libc", &[]), ("mine", &["libc"]), ("app", &["mine", "cfg-if"])], &["mine", "app"])
}

#[test]
fn plan_lists_all_packages() {
    assert_eq!(
        run_plan(Ok(small()), false).unwrap(),
        vec![
            "parallel-rustc plan",
            "workspace: /ws",
            "packages: 4   phases: 3",
            "",
            "phase 0 (2 packages, parallel):",
            "  - cfg-if v1.0.0",
            "  - libc v1.0.0",
            "phase 1 (1 packages, parallel):",
            "  - mine v1.0.0",
            "phase 2 (1 packages, parallel):",
            "  - app v1.0.0",
        ]
    );
}

#[test]
fn plan_counts_external_packages() {
    let mut m = meta(&[("ext", &[]), ("mine", &[]), ("app", &["mine"]), ("glue", &["ext"]), ("last", &["glue"])], &["mine", "app"]);
    m.workspace_root = String::new();
    m.packages[1].version = String::new();
    m.packages.remove(2);
    assert_eq!(
        run_plan(Ok(m), true).unwrap(),
        vec![
            "parallel-rustc plan".to_string(),
            "packages: 2 (workspace)   total: 5 (with deps)   phases: 3".to_string(),
            "".to_string(),
            "phase 0 (1 workspace + 1 external, parallel):".to_string(),
            "  - mine".to_string(),
            "phase 1 (1 workspace + 1 external, parallel):".to_string(),
            format!("  - {}", id("app")),
            "phase 2 (1 external deps, skipped)".to_string(),
        ]
    );
}

#[test]
fn plan_errors_say_what_failed() {
    assert_eq!(run_plan(Err("no cargo".into()), false).unwrap_err(), "cargo metadata: no cargo");
    let e = run_plan(Ok(meta(&[("a", &["b"])], &[])), false).unwrap_err();
    assert_eq!(
        e,
        format!("graph build: resolve node {} references unknown dependency {}", id("a"), id("b"))
    );
    let e = run_plan(Ok(meta(&[("a", &["a"])], &[])), false).unwrap_err();
    assert_eq!(e, "phase computation: dependency graph contains a cycle: emitted 0 of 1 nodes");
}

fn show(steps: &[BuildStep]) -> Vec<String> {
    steps
        .iter()
        .map(|s| match s {
            BuildStep::Start(line) => line.clone(),
            BuildStep::Wave(lists) => {
                let lists: Vec<String> = lists.iter().map(|l| l.join(" ")).collect();
                lists.join(" | ")
            }
            BuildStep::End => "end".to_string(),
        })
        .collect()
}

#[test]
fn phase_build_steps() {
    let loaded = Ok(small());
    let (dag, phases) = graph_and_phases(&loaded).unwrap();
    let m = loaded.unwrap();
    let mut cfg = config(1);
    cfg.release = true;
    assert_eq!(
        show(&build_steps(&m, &dag, &phases, &cfg)),
        vec![
            "phase 0 (2 packages)...",
            "build -p cfg-if --release -j 1",
            "build -p libc --release -j 1",
            "end",
            "phase 1 (1 package)...",
            "build -p mine --release -j 1",
            "end",
            "phase 2 (1 package)...",
            "build -p app --release -j 1",
            "end",
        ]
    );
    let mut cfg = config(0);
    cfg.workspace_only = true;
    assert_eq!(
        show(&build_steps(&m, &dag, &phases, &cfg)),
        vec![
            "phase 1 (1 package)...",
            "build -p mine -j 1",
            "end",
            "phase 2 (1 package)...",
            "build -p app -j 1",
            "end",
        ]
    );
    assert_eq!(
        show(&build_steps(&m, &dag, &phases, &config(8)))[1],
        "build -p cfg-if -j 1 | build -p libc -j 1"
    );
    assert_eq!(
        header_lines(&m, &config(8), phases.len()),
        vec!["parallel-rustc build", "workspace: /ws", "profile: debug   jobs/phase: 8   phases: 3", ""]
    );
    assert_eq!(cargo_build_args("x", false), vec!["build", "-p", "x", "-j", "1"]);
}

#[test]
fn waves_are_at_most_so_wide() {
    assert_eq!(waves(7, 3), vec![(0, 3), (3, 6), (6, 7)]);
    assert_eq!(waves(2, 0), vec![(0, 1), (1, 2)]);
    assert_eq!(waves(0, 4), vec![]);
    assert_eq!(waves(3, usize::MAX), vec![(0, 3)]);
}

#[test]
fn widest_phase() {
    assert_eq!(max_width(&[vec![1], vec![2, 3, 4], vec![5, 6]]), 3);
    assert_eq!(max_width(&[]), 0);
}

#[test]
fn strategies() {
    assert_eq!(parse_strategy("v1"), Ok(Strategy::Cargo));
    assert_eq!(parse_strategy("cargo"), Ok(Strategy::Cargo));
    assert_eq!(parse_strategy("v2"), Ok(Strategy::Wrapper));
    assert_eq!(parse_strategy("wrapper"), Ok(Strategy::Wrapper));
    assert_eq!(parse_strategy("v4"), Ok(Strategy::UnitGraph));
    assert_eq!(parse_strategy("unit-graph"), Ok(Strategy::UnitGraph));
    assert_eq!(
        parse_strategy("v3"),
        Err("unknown --strategy v3; expected v1|v2|v4".to_string())
    );
}

#[test]
fn benchmark_steps_start_cold() {
    let steps: Vec<String> = bench_steps(&config(6))
        .iter()
        .map(|s| match s {
            BenchStep::Say(line) => line.clone(),
            BenchStep::Clean(args) => format!("clean: {}", args.join(" ")),
            BenchStep::Cargo(args) => format!("cargo: {}", args.join(" ")),
            BenchStep::Phases => "phases".to_string(),
        })
        .collect();
    assert_eq!(
        steps,
        vec![
            "  [1/3] serial (-j1)         ...",
            "clean: clean",
            "cargo: build -j 1",
            "  [2/3] cargo parallel (-j6) ...",
            "clean: clean",
            "cargo: build -j 6",
            "  [3/3] parallel-rustc (-j6) ...",
            "clean: clean",
            "phases",
        ]
    );
}

#[test]
fn benchmark_lines() {
    assert_eq!(
        phase_lines(&[vec![0, 1], vec![2]]),
        vec!["  phases used:         2", "  max phase width:     2"]
    );
    assert_eq!(
        parallel_rustc::bench::header_lines(&small(), &config(1)),
        vec![
            "parallel-rustc bench",
            "workspace: /ws",
            "",
            "Running 3 build modes (cold builds, debug)...",
            "",
        ]
    );
}
