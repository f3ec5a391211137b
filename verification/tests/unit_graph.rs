use parallel_rustc::cli::run_plan_v2;
use parallel_rustc::unit_graph::{
    assign_phases, listed_pkg_ids, pkg_ids_by_phase, plan_lines, read_debuginfo, split_pkg_id,
    units_from_raw, DebugInfo, RawProfile, RawTarget, RawUnit, UnitDep, UnitGraphUnit,
};

fn mk_unit(name: &str, mode: &str, deps: &[(usize, &str)]) -> UnitGraphUnit {
    UnitGraphUnit {
        pkg_id: format!("path+file:///tmp/{name}#0.1.0"),
        pkg_name: name.to_string(),
        pkg_version: Some("0.1.0".into()),
        name: name.to_string(),
        src_path: format!("/tmp/{name}/src/lib.rs"),
        edition: "2021".into(),
        crate_types: vec!["lib".into()],
        kind: vec!["lib".into()],
        mode: mode.into(),
        features: vec![],
        opt_level: "0".into(),
        debuginfo: 2,
        debug_assertions: true,
        incremental: false,
        panic: "unwind".into(),
        dependencies: deps
            .iter()
            .map(|(i, n)| UnitDep { index: *i, extern_crate_name: (*n).to_string() })
            .collect(),
    }
}

#[test]
fn phases_chain() {
    // chain_1 <- chain_2 <- chain_3
    let units = vec![
        mk_unit("chain_1", "build", &[]),
        mk_unit("chain_2", "build", &[(0, "chain_1")]),
        mk_unit("chain_3", "build", &[(1, "chain_2")]),
    ];
    let phases = assign_phases(&units).unwrap();
    assert_eq!(phases.len(), 3);
    assert_eq!(phases[0], vec![0]);
    assert_eq!(phases[1], vec![1]);
    assert_eq!(phases[2], vec![2]);
}

#[test]
fn phases_diamond() {
    //    top
    //   /   \
    // left  right
    //   \   /
    //   base
    let units = vec![
        mk_unit("base", "build", &[]),
        mk_unit("left", "build", &[(0, "base")]),
        mk_unit("right", "build", &[(0, "base")]),
        mk_unit("top", "build", &[(1, "left"), (2, "right")]),
    ];
    let phases = assign_phases(&units).unwrap();
    assert_eq!(phases.len(), 3);
    assert_eq!(phases[0], vec![0]);
    assert_eq!(phases[1], vec![1, 2]);
    assert_eq!(phases[2], vec![3]);
}

#[test]
fn split_pkg_id_formats() {
    let (n, v) = split_pkg_id("registry+https://github.com/rust-lang/crates.io-index#proc-macro2@1.0.106");
    assert_eq!(n, "proc-macro2");
    assert_eq!(v.as_deref(), Some("1.0.106"));

    let (n, v) = split_pkg_id("proc-macro2 1.0.106 (registry+https://x)");
    assert_eq!(n, "proc-macro2");
    assert_eq!(v.as_deref(), Some("1.0.106"));

    let (n, v) = split_pkg_id("path+file:///tmp/local#0.1.0");
    assert_eq!(n, "local");
    assert_eq!(v.as_deref(), Some("0.1.0"));
}

#[test]
fn split_pkg_id_without_a_version() {
    assert_eq!(split_pkg_id("plain"), ("plain".to_string(), None));
    assert_eq!(split_pkg_id("plain "), ("plain".to_string(), None));
}

fn raw(pkg_id: &str, debuginfo: DebugInfo) -> RawUnit {
    RawUnit {
        pkg_id: pkg_id.into(),
        target: RawTarget {
            name: "a".into(),
            src_path: "/tmp/a/src/lib.rs".into(),
            edition: "2021".into(),
            crate_types: vec!["lib".into()],
            kind: vec!["lib".into()],
        },
        profile: RawProfile {
            opt_level: "0".into(),
            debuginfo: read_debuginfo(&debuginfo).unwrap(),
            debug_assertions: true,
            incremental: false,
            panic: "unwind".into(),
        },
        mode: "build".into(),
        features: vec![],
        dependencies: vec![],
    }
}

#[test]
fn parse_minimal_json() {
    let units = units_from_raw(vec![raw("path+file:///tmp/a#0.1.0", DebugInfo::Number(Some(2)))]);
    assert_eq!(units.len(), 1);
    assert_eq!(units[0].name, "a");
    assert_eq!(units[0].edition, "2021");
}

#[test]
fn parse_debuginfo_string() {
    let units = units_from_raw(vec![raw("a@0.1.0", DebugInfo::Text("line-tables-only".into()))]);
    assert_eq!(units[0].debuginfo, 1);
}

#[test]
fn raw_units_get_their_package_names() {
    let raw = RawUnit {
        pkg_id: "path+file:///tmp/a#0.1.0".into(),
        target: RawTarget {
            name: "a".into(),
            src_path: "/tmp/a/src/lib.rs".into(),
            edition: "2021".into(),
            crate_types: vec!["lib".into()],
            kind: vec!["lib".into()],
        },
        profile: RawProfile {
            opt_level: "0".into(),
            debuginfo: 2,
            debug_assertions: true,
            incremental: false,
            panic: "unwind".into(),
        },
        mode: "build".into(),
        features: vec!["std".into()],
        dependencies: vec![UnitDep { index: 7, extern_crate_name: "dep".into() }],
    };
    let units = units_from_raw(vec![raw]);
    assert_eq!(units.len(), 1);
    assert_eq!(units[0].pkg_name, "a");
    assert_eq!(units[0].pkg_version.as_deref(), Some("0.1.0"));
    assert_eq!(units[0].name, "a");
    assert_eq!(units[0].edition, "2021");
    assert_eq!(units[0].kind, vec!["lib"]);
    assert_eq!(units[0].debuginfo, 2);
    assert_eq!(units[0].features, vec!["std"]);
    assert_eq!(units[0].dependencies[0].index, 7);
}

#[test]
fn debuginfo_levels() {
    let text = |s: &str| read_debuginfo(&DebugInfo::Text(s.to_string()));
    assert_eq!(text("line-tables-only"), Ok(1));
    assert_eq!(text("limited"), Ok(1));
    assert_eq!(text("full"), Ok(2));
    assert_eq!(read_debuginfo(&DebugInfo::Number(Some(2))), Ok(2));
    assert_eq!(read_debuginfo(&DebugInfo::Flag(true)), Ok(2));
    assert_eq!(read_debuginfo(&DebugInfo::Flag(false)), Ok(0));
    assert_eq!(read_debuginfo(&DebugInfo::Null), Ok(0));
    assert!(read_debuginfo(&DebugInfo::Other).is_err());
}

#[test]
fn phases_are_listed_by_package_name_and_mode() {
    let mut units = vec![
        mk_unit("zlib", "build", &[]),
        mk_unit("core", "run-custom-build", &[]),
        mk_unit("core", "build", &[]),
    ];
    units[0].pkg_name = "zlib".into();
    let phases = assign_phases(&units).unwrap();
    assert_eq!(phases, vec![vec![2, 1, 0]]);
}

#[test]
fn a_dependency_that_names_no_unit_is_an_error() {
    let units = vec![mk_unit("a", "build", &[(3, "x")])];
    let e = assign_phases(&units).unwrap_err();
    assert!(e.contains('3'), "{e}");
    let e2 = run_plan_v2(Ok(units), false).unwrap_err();
    assert_eq!(e2, format!("phase computation: {e}"));
}

#[test]
fn units_that_wait_for_each_other_are_an_error() {
    let units = vec![
        mk_unit("a", "build", &[(1, "b")]),
        mk_unit("b", "build", &[(0, "a")]),
        mk_unit("c", "build", &[]),
    ];
    let e = assign_phases(&units).unwrap_err();
    assert!(e.contains("cycle"), "{e}");
    assert!(e.contains("1 of 3"), "{e}");
}

#[test]
fn package_ids_of_each_phase() {
    let units = vec![
        mk_unit("b", "build", &[]),
        mk_unit("a", "build", &[]),
        mk_unit("b", "run-custom-build", &[]),
    ];
    let expected =
        vec![vec!["path+file:///tmp/a#0.1.0".to_string(), "path+file:///tmp/b#0.1.0".to_string()]];
    assert_eq!(listed_pkg_ids(&units, &[vec![0, 1, 2]]), expected);
    assert_eq!(pkg_ids_by_phase(&units, &[vec![0, 1, 2]]), expected);
}

#[test]
fn package_ids_reachable_from_each_phase() {
    let mut units = vec![mk_unit("a", "build", &[]), mk_unit("b", "build", &[(0, "a")])];
    units[0].pkg_id = "a".into();
    units[1].pkg_id = "b".into();
    assert_eq!(pkg_ids_by_phase(&units, &[vec![1]]), vec![vec!["a", "b"]]);
    assert_eq!(listed_pkg_ids(&units, &[vec![1]]), vec![vec!["b"]]);
    assert_eq!(pkg_ids_by_phase(&units, &[vec![0], vec![1]]), vec![vec!["a"], vec!["a", "b"]]);
    // Through others, around a circle, and past a dependency that names no unit.
    let mut units = vec![
        mk_unit("a", "build", &[(1, "b"), (9, "x")]),
        mk_unit("b", "build", &[(2, "c")]),
        mk_unit("c", "build", &[(0, "a")]),
        mk_unit("d", "build", &[(2, "c")]),
    ];
    for (u, id) in units.iter_mut().zip(["a", "b", "c", "d"]) {
        u.pkg_id = id.to_string();
    }
    assert_eq!(pkg_ids_by_phase(&units, &[vec![1], vec![], vec![3]]), vec![
        vec!["a", "b", "c"],
        vec![],
        vec!["a", "b", "c", "d"],
    ]);
}

#[test]
fn plan_of_units_as_lines() {
    let mut units = vec![
        mk_unit("base", "build", &[]),
        mk_unit("base", "run-custom-build", &[]),
        mk_unit("top", "check", &[(0, "base"), (1, "script")]),
    ];
    units[2].features = vec!["std".into(), "fast".into()];
    units[2].pkg_id = "registry+https://x#top@1.0.0".into();
    let phases = assign_phases(&units).unwrap();
    let lines = plan_lines(&units, &phases, false);
    assert_eq!(
        lines,
        vec![
            "parallel-rustc plan (unit-graph, v0.3.0)",
            "units: 3   phases: 2",
            "",
            "phase 0 (1 rustc + 1 build-script runs, parallel):",
            "  - base v0.1.0",
            "phase 1 (1 units, parallel):",
            "  - top v0.1.0 (check) [std,fast]",
        ]
    );
    let lines = run_plan_v2(Ok(units), true).unwrap();
    assert_eq!(lines[5], "phase 1 (0 units, parallel):");
    assert_eq!(lines.len(), 6);
}

#[test]
fn plan_of_units_passes_the_fetch_error_on() {
    assert_eq!(run_plan_v2(Err("boom".into()), false).unwrap_err(), "fetch unit-graph: boom");
}
