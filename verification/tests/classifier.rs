use parallel_rustc::classifier::{
    classify_from_unit_graph, classify_units, is_link_seed, normalize_crate_name, ClassifiedUnits,
};
use parallel_rustc::unit_graph::{UnitDep, UnitGraphUnit};

fn mk(name: &str, mode: &str, kind: &[&str], deps: &[usize]) -> UnitGraphUnit {
    UnitGraphUnit {
        pkg_id: format!("path+file:///tmp/{name}#0.1.0"),
        pkg_name: name.to_string(),
        pkg_version: Some("0.1.0".into()),
        name: name.to_string(),
        src_path: format!("/tmp/{name}/src/lib.rs"),
        edition: "2021".into(),
        crate_types: vec!["lib".into()],
        kind: kind.iter().map(|s| s.to_string()).collect(),
        mode: mode.into(),
        features: vec![],
        opt_level: "0".into(),
        debuginfo: 2,
        debug_assertions: true,
        incremental: false,
        panic: "unwind".into(),
        dependencies: deps
            .iter()
            .map(|&i| UnitDep { index: i, extern_crate_name: format!("dep_{i}") })
            .collect(),
    }
}

#[test]
fn proc_macro_pulls_deps_into_needs_rlib() {
    // 0: proc_macro2 (lib)
    // 1: quote       (lib, deps -> 0)
    // 2: my_derive   (proc-macro lib, deps -> 0, 1)
    // 3: leaf        (lib, no link involvement)
    let units = vec![
        mk("proc_macro2", "build", &["lib"], &[]),
        mk("quote", "build", &["lib"], &[0]),
        mk("my_derive", "build", &["proc-macro"], &[0, 1]),
        mk("leaf", "build", &["lib"], &[]),
    ];
    let c = classify_units(&units);
    assert!(c.needs_rlib.contains("proc_macro2"));
    assert!(c.needs_rlib.contains("quote"));
    assert!(c.needs_rlib.contains("my_derive"));
    assert!(c.defer_codegen.contains("leaf"));
    assert!(!c.needs_rlib.contains("leaf"));
}

#[test]
fn build_script_pulls_deps_into_needs_rlib() {
    // 0: version_check (lib)
    // 1: build script run for crate x (deps -> 0)
    // 2: x itself (lib, deps -> 1)
    // 3: unrelated_lib
    let units = vec![
        mk("version_check", "build", &["lib"], &[]),
        mk("build-script-build", "run-custom-build", &["custom-build"], &[0]),
        mk("x", "build", &["lib"], &[1]),
        mk("unrelated_lib", "build", &["lib"], &[]),
    ];
    let c = classify_units(&units);
    // version_check is consumed by a build-script execution.
    assert!(c.needs_rlib.contains("version_check"));
    assert!(c.defer_codegen.contains("unrelated_lib"));
}

#[test]
fn dash_in_name_normalized_to_underscore() {
    let units = vec![
        mk("proc-macro2", "build", &["lib"], &[]),
        mk("my-derive", "build", &["proc-macro"], &[0]),
    ];
    let c = classify_units(&units);
    assert!(c.needs_rlib.contains("proc_macro2"));
    assert!(c.needs_rlib.contains("my_derive"));
}

#[test]
fn all_lib_no_seeds_means_all_deferred() {
    let units = vec![
        mk("a", "build", &["lib"], &[]),
        mk("b", "build", &["lib"], &[0]),
    ];
    let c = classify_units(&units);
    assert!(c.needs_rlib.is_empty());
    assert!(c.defer_codegen.contains("a"));
    assert!(c.defer_codegen.contains("b"));
}

#[test]
fn bin_target_pulls_all_lib_deps_into_needs_rlib() {
    // 0: libfoo (lib)
    // 1: libbar (lib, deps -> 0)
    // 2: mybin  (bin, deps -> 1)
    // 3: unrelated (lib)
    let units = vec![
        mk("libfoo", "build", &["lib"], &[]),
        mk("libbar", "build", &["lib"], &[0]),
        mk("mybin", "build", &["bin"], &[1]),
        mk("unrelated", "build", &["lib"], &[]),
    ];
    let c = classify_units(&units);
    assert!(c.needs_rlib.contains("mybin"));
    assert!(c.needs_rlib.contains("libbar"));
    assert!(c.needs_rlib.contains("libfoo"));
    assert!(c.defer_codegen.contains("unrelated"));
    assert!(!c.needs_rlib.contains("unrelated"));
}

fn listed(c: &ClassifiedUnits) -> (Vec<&str>, Vec<&str>) {
    (
        c.needs_rlib.names.iter().map(|s| s.as_str()).collect(),
        c.defer_codegen.names.iter().map(|s| s.as_str()).collect(),
    )
}

#[test]
fn every_linking_kind_is_a_seed() {
    for kind in ["proc-macro", "bin", "cdylib", "dylib", "staticlib"] {
        assert!(is_link_seed(&mk("x", "build", &["lib", kind], &[])), "{kind}");
        assert!(!is_link_seed(&mk("x", "test", &[kind], &[])), "{kind}");
    }
    assert!(is_link_seed(&mk("x", "run-custom-build", &[], &[])));
    assert!(!is_link_seed(&mk("x", "build", &["lib", "rlib", "custom-build"], &[])));
}

#[test]
fn a_name_with_a_linked_unit_is_not_deferred() {
    // The same crate is compiled twice, and only one of the units is linked.
    let units = vec![
        mk("serde-core", "build", &["lib"], &[]),
        mk("serde_core", "build", &["lib"], &[]),
        mk("derive", "build", &["proc-macro"], &[0]),
    ];
    let c = classify_units(&units);
    assert_eq!(listed(&c), (vec!["derive", "serde_core"], vec![]));
    assert_eq!(c.total_units, 3);
}

#[test]
fn linking_walks_through_units_that_are_not_compiled_and_cycles() {
    let units = vec![
        mk("deep", "build", &["lib"], &[1]),
        mk("script", "run-custom-build", &[], &[0, 9]),
        mk("app", "build", &["bin"], &[1]),
        mk("other", "check", &["lib"], &[]),
    ];
    let c = classify_units(&units);
    assert_eq!(listed(&c), (vec!["app", "deep"], vec![]));
}

#[test]
fn what_a_linked_unit_consumes_is_needed() {
    let units = vec![
        mk("a", "build", &["lib"], &[]),
        mk("b", "build", &["lib"], &[0]),
        mk("c", "build", &["cdylib"], &[1]),
        mk("d", "build", &["lib"], &[2]),
    ];
    let c = classify_units(&units);
    assert_eq!(listed(&c), (vec!["a", "b", "c"], vec!["d"]));
    assert_eq!(c.needs_rlib.comma_separated(), "a,b,c");
    assert_eq!(c.needs_rlib.len(), 3);
}

#[test]
fn classification_passes_the_fetch_error_on() {
    let r = classify_from_unit_graph(Err("no nightly".to_string()));
    assert_eq!(r.unwrap_err(), "fetch unit-graph for classification: no nightly");
    let c = classify_from_unit_graph(Ok(vec![mk("a", "build", &["lib"], &[])])).unwrap();
    assert_eq!(listed(&c), (vec![], vec!["a"]));
}

#[test]
fn crate_names_have_underscores() {
    assert_eq!(normalize_crate_name("a-b-c_d"), "a_b_c_d");
    assert_eq!(normalize_crate_name(""), "");
}
