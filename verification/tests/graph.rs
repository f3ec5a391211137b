use parallel_rustc::graph::{build, build_phases, phases, within_limits};
use parallel_rustc::metadata::{DepKind, DepRef, Metadata, Package, Resolve, ResolveNode};

/// A crate with its dependencies, each with the kinds that cargo reports for it.
struct TestCrate {
    name: String,
    deps: Vec<(String, Vec<Option<&'static str>>)>,
    features: Vec<&'static str>,
}

impl TestCrate {
    fn lib(name: &str, deps: Vec<&str>) -> Self {
        TestCrate {
            name: name.to_string(),
            deps: deps.iter().map(|d| (d.to_string(), vec![None])).collect(),
            features: vec![],
        }
    }

    fn with_features(mut self, features: Vec<&'static str>) -> Self {
        self.features = features;
        self
    }

    fn with_dep(mut self, dep: &str, kinds: Vec<Option<&'static str>>) -> Self {
        self.deps.push((dep.to_string(), kinds));
        self
    }
}

fn id(name: &str) -> String {
    format!("path+file:///ws/{name}#0.1.0")
}

/// What `cargo metadata` reports for a workspace of these crates.
fn workspace(crates: &[TestCrate]) -> Metadata {
    Metadata {
        packages: crates
            .iter()
            .map(|c| Package { id: id(&c.name), name: c.name.clone(), version: "0.1.0".into() })
            .collect(),
        workspace_members: crates.iter().map(|c| id(&c.name)).collect(),
        resolve: Resolve {
            nodes: crates
                .iter()
                .map(|c| ResolveNode {
                    id: id(&c.name),
                    dependencies: c.deps.iter().map(|(d, _)| id(d)).collect(),
                    deps: c
                        .deps
                        .iter()
                        .map(|(d, kinds)| DepRef {
                            pkg: id(d),
                            name: d.replace('-', "_"),
                            dep_kinds: kinds
                                .iter()
                                .map(|k| DepKind { kind: k.map(String::from), target: None })
                                .collect(),
                        })
                        .collect(),
                    features: c.features.iter().map(|f| f.to_string()).collect(),
                })
                .collect(),
            root: None,
        },
        workspace_root: "/ws".into(),
    }
}

fn run_plan(crates: &[TestCrate]) -> Vec<Vec<String>> {
    build_phases(&workspace(crates))
        .iter()
        .map(|phase| {
            let mut names: Vec<String> = phase.iter().map(|p| p.name.clone()).collect();
            names.sort();
            names
        })
        .collect()
}

fn assert_in_phase(phases: &[Vec<String>], name: &str, phase: usize) {
    assert!(phase < phases.len(), "expected phase {phase} for '{name}' but only {} phases", phases.len());
    assert!(phases[phase].contains(&name.to_string()), "'{name}' not in phase {phase}: {:?}\nall: {:?}", phases[phase], phases);
}

// Wide fan-out: all leaves in phase 0.
#[test]
fn wide_fanout_all_leaves_phase_0() {
    let phases = run_plan(&[
        TestCrate::lib("leaf-a", vec![]), TestCrate::lib("leaf-b", vec![]),
        TestCrate::lib("leaf-c", vec![]), TestCrate::lib("leaf-d", vec![]),
        TestCrate::lib("leaf-e", vec![]),
    ]);
    assert_eq!(phases.len(), 1, "all leaves = single phase");
    assert_eq!(phases[0].len(), 5);
}

// Linear chain: one per phase.
#[test]
fn linear_chain_fully_serial() {
    let phases = run_plan(&[
        TestCrate::lib("chain-1", vec![]),
        TestCrate::lib("chain-2", vec!["chain-1"]),
        TestCrate::lib("chain-3", vec!["chain-2"]),
        TestCrate::lib("chain-4", vec!["chain-3"]),
    ]);
    assert_eq!(phases.len(), 4);
    assert_in_phase(&phases, "chain-1", 0);
    assert_in_phase(&phases, "chain-2", 1);
    assert_in_phase(&phases, "chain-3", 2);
    assert_in_phase(&phases, "chain-4", 3);
}

// Diamond: fan-out then fan-in.
#[test]
fn diamond_pattern() {
    let phases = run_plan(&[
        TestCrate::lib("base", vec![]),
        TestCrate::lib("left", vec!["base"]),
        TestCrate::lib("right", vec!["base"]),
        TestCrate::lib("top", vec!["left", "right"]),
    ]);
    assert_eq!(phases.len(), 3);
    assert_in_phase(&phases, "base", 0);
    assert_in_phase(&phases, "left", 1);
    assert_in_phase(&phases, "right", 1);
    assert_in_phase(&phases, "top", 2);
}

// Shared dependency fan-in.
#[test]
fn shared_dependency_fanin() {
    let phases = run_plan(&[
        TestCrate::lib("shared-base", vec![]),
        TestCrate::lib("user-1", vec!["shared-base"]),
        TestCrate::lib("user-2", vec!["shared-base"]),
        TestCrate::lib("user-3", vec!["shared-base"]),
    ]);
    assert_eq!(phases.len(), 2);
    assert_in_phase(&phases, "shared-base", 0);
    assert_in_phase(&phases, "user-1", 1);
    assert_in_phase(&phases, "user-2", 1);
    assert_in_phase(&phases, "user-3", 1);
}

// Mixed topology: chain + diamond + fan-in into a final app.
#[test]
fn mixed_topology_final_merge() {
    let phases = run_plan(&[
        TestCrate::lib("leaf-a", vec![]), TestCrate::lib("leaf-b", vec![]),
        TestCrate::lib("chain-1", vec![]),
        TestCrate::lib("chain-2", vec!["chain-1"]),
        TestCrate::lib("chain-3", vec!["chain-2"]),
        TestCrate::lib("dia-left", vec!["leaf-a"]),
        TestCrate::lib("dia-right", vec!["leaf-a"]),
        TestCrate::lib("dia-top", vec!["dia-left", "dia-right"]),
        TestCrate::lib("fan-1", vec!["leaf-b"]),
        TestCrate::lib("fan-2", vec!["leaf-b"]),
        TestCrate::lib("app", vec!["chain-3", "dia-top", "fan-1"]),
    ]);
    assert_in_phase(&phases, "leaf-a", 0);
    assert_in_phase(&phases, "leaf-b", 0);
    assert_in_phase(&phases, "chain-1", 0);
    assert_in_phase(&phases, "dia-left", 1);
    assert_in_phase(&phases, "dia-right", 1);
    assert_in_phase(&phases, "fan-1", 1);
    assert_in_phase(&phases, "fan-2", 1);
    assert_in_phase(&phases, "chain-2", 1);
    assert_in_phase(&phases, "dia-top", 2);
    assert_in_phase(&phases, "chain-3", 2);
    assert_in_phase(&phases, "app", 3);
}

// Single crate.
#[test]
fn single_crate() {
    let phases = run_plan(&[TestCrate::lib("solo", vec![])]);
    assert_eq!(phases.len(), 1);
    assert_eq!(phases[0], vec!["solo"]);
}

// Two independent chains share phases.
#[test]
fn two_independent_chains() {
    let phases = run_plan(&[
        TestCrate::lib("chain-a1", vec![]),
        TestCrate::lib("chain-a2", vec!["chain-a1"]),
        TestCrate::lib("chain-a3", vec!["chain-a2"]),
        TestCrate::lib("chain-b1", vec![]),
        TestCrate::lib("chain-b2", vec!["chain-b1"]),
    ]);
    assert_eq!(phases.len(), 3, "depth = longest chain (3)");
    assert_in_phase(&phases, "chain-a1", 0);
    assert_in_phase(&phases, "chain-b1", 0);
    assert_in_phase(&phases, "chain-a2", 1);
    assert_in_phase(&phases, "chain-b2", 1);
    assert_in_phase(&phases, "chain-a3", 2);
}

// An optional dependency that is not enabled makes no edge: cargo leaves it out.
// The feature "extras" would pull it in as "dep:optional-extra".
#[test]
fn optional_dep_not_enabled() {
    let phases = run_plan(&[
        TestCrate::lib("base", vec![]),
        TestCrate::lib("optional-extra", vec![]),
        TestCrate::lib("consumer", vec!["base"]),
    ]);
    assert_in_phase(&phases, "base", 0);
    assert_in_phase(&phases, "optional-extra", 0);
    assert_in_phase(&phases, "consumer", 1);
}

// A default feature "extras" that enables "dep:opt-dep" adds its edge.
#[test]
fn feature_enables_optional_dep() {
    let phases = run_plan(&[
        TestCrate::lib("base", vec![]),
        TestCrate::lib("opt-dep", vec![]),
        TestCrate::lib("consumer", vec!["base", "opt-dep"]).with_features(vec!["default", "extras"]),
    ]);
    assert_in_phase(&phases, "base", 0);
    assert_in_phase(&phases, "opt-dep", 0);
    assert_in_phase(&phases, "consumer", 1);
}

// Features unify on a shared dependency, and change no edge.
#[test]
fn feature_propagation_through_deps() {
    let phases = run_plan(&[
        TestCrate::lib("base", vec![]).with_features(vec!["fast", "logging"]),
        TestCrate::lib("mid", vec!["base"]),
        TestCrate::lib("top", vec!["base", "mid"]),
    ]);
    assert_eq!(phases.len(), 3);
    assert_in_phase(&phases, "base", 0);
    assert_in_phase(&phases, "mid", 1);
    assert_in_phase(&phases, "top", 2);
}

// Several binaries share libraries.
#[test]
fn multiple_binaries_shared_libs() {
    let phases = run_plan(&[
        TestCrate::lib("core-lib", vec![]),
        TestCrate::lib("net-lib", vec!["core-lib"]),
        TestCrate::lib("db-lib", vec!["core-lib"]),
        TestCrate::lib("server", vec!["core-lib", "net-lib", "db-lib"]),
        TestCrate::lib("cli", vec!["core-lib", "db-lib"]),
        TestCrate::lib("proxy-bin", vec!["core-lib", "net-lib"]),
    ]);
    assert_eq!(phases.len(), 3);
    assert_in_phase(&phases, "core-lib", 0);
    assert_in_phase(&phases, "net-lib", 1);
    assert_in_phase(&phases, "db-lib", 1);
    assert_in_phase(&phases, "server", 2);
    assert_in_phase(&phases, "cli", 2);
    assert_in_phase(&phases, "proxy-bin", 2);
}

// A deep diamond with features at every level.
#[test]
fn deep_diamond_with_features() {
    let phases = run_plan(&[
        TestCrate::lib("foundation", vec![]).with_features(vec!["alloc", "std"]),
        TestCrate::lib("codec", vec!["foundation"]).with_features(vec!["serde"]),
        TestCrate::lib("transport", vec!["foundation"]).with_features(vec!["tls"]),
        TestCrate::lib("protocol", vec!["codec", "transport"]),
        TestCrate::lib("node", vec!["transport", "protocol"]),
    ]);
    assert_eq!(phases.len(), 4);
    assert_in_phase(&phases, "foundation", 0);
    assert_in_phase(&phases, "codec", 1);
    assert_in_phase(&phases, "transport", 1);
    assert_in_phase(&phases, "protocol", 2);
    assert_in_phase(&phases, "node", 3);
}

// Default features that are switched off ("full" and "minimal" stay off).
#[test]
fn default_features_disabled() {
    let phases = run_plan(&[
        TestCrate::lib("heavy-lib", vec![]),
        TestCrate::lib("lean-consumer", vec!["heavy-lib"]),
    ]);
    assert_eq!(phases.len(), 2);
    assert_in_phase(&phases, "heavy-lib", 0);
    assert_in_phase(&phases, "lean-consumer", 1);
}

// Ten independent libraries and three binaries that pull combinations of them.
#[test]
fn wide_workspace_stress() {
    let mut crates = vec![];
    for i in 0..10 {
        crates.push(TestCrate::lib(&format!("lib-{i}"), vec![]));
    }
    crates.push(TestCrate::lib("mid-a", vec!["lib-0", "lib-1", "lib-2"]));
    crates.push(TestCrate::lib("mid-b", vec!["lib-3", "lib-4", "lib-5"]));
    crates.push(TestCrate::lib("mid-c", vec!["lib-6", "lib-7", "lib-8", "lib-9"]));
    crates.push(TestCrate::lib("app-1", vec!["mid-a", "mid-b"]));
    crates.push(TestCrate::lib("app-2", vec!["mid-b", "mid-c"]));
    crates.push(TestCrate::lib("app-3", vec!["mid-a", "mid-c", "lib-0"]));
    let phases = run_plan(&crates);
    assert_eq!(phases.len(), 3);
    assert_eq!(phases[0].len(), 10, "all 10 base libs in phase 0");
    assert_eq!(phases[1].len(), 3, "all 3 mid libs in phase 1");
    assert_eq!(phases[2].len(), 3, "all 3 apps in phase 2");
}

// A chain whose links are gated by features.
#[test]
fn feature_gated_transitive_chain() {
    let phases = run_plan(&[
        TestCrate::lib("bottom", vec![]).with_features(vec!["y-mode"]),
        TestCrate::lib("middle", vec!["bottom"]).with_features(vec!["x-mode"]),
        TestCrate::lib("top", vec!["middle"]),
    ]);
    assert_eq!(phases.len(), 3);
    assert_in_phase(&phases, "bottom", 0);
    assert_in_phase(&phases, "middle", 1);
    assert_in_phase(&phases, "top", 2);
}

// A dev-dependency makes no edge ("[dev-dependencies]\nlib-b = { path = \"../lib-b\" }").
#[test]
fn dev_deps_excluded_from_compile_graph() {
    let phases = run_plan(&[
        TestCrate::lib("lib-b", vec![]),
        TestCrate::lib("lib-a", vec![]).with_dep("lib-b", vec![Some("dev")]),
    ]);
    assert_eq!(phases.len(), 1, "lib-a and lib-b should both be phase 0, got phases: {:?}", phases);
    assert_in_phase(&phases, "lib-a", 0);
    assert_in_phase(&phases, "lib-b", 0);
}

#[test]
fn compile_deps_keeps_normal_uses_only() {
    let meta = workspace(&[TestCrate::lib("a", vec!["n"])
        .with_dep("d", vec![Some("dev")])
        .with_dep("b", vec![Some("build")])
        .with_dep("db", vec![Some("dev"), Some("build")])
        .with_dep("dn", vec![Some("dev"), None])
        .with_dep("e", vec![])
        .with_dep("other", vec![Some("bench")])]);
    let node = &meta.resolve.nodes[0];
    assert_eq!(node.compile_deps(), vec![id("n"), id("dn"), id("other")]);
}

#[test]
fn compile_deps_falls_back_to_the_flat_list() {
    let node = ResolveNode {
        id: "a".into(),
        dependencies: vec!["x".into(), "y".into()],
        deps: vec![],
        features: vec![],
    };
    assert_eq!(node.compile_deps(), vec!["x", "y"]);
}

#[test]
fn a_dev_dependency_on_itself_is_no_cycle() {
    let phases = run_plan(&[TestCrate::lib("serde", vec![]).with_dep("serde", vec![Some("dev")])]);
    assert_eq!(phases, vec![vec!["serde"]]);
}

#[test]
fn graph_has_one_node_per_package_and_one_edge_per_dependency() {
    let meta = workspace(&[
        TestCrate::lib("b", vec![]),
        TestCrate::lib("a", vec!["b", "b"]),
    ]);
    let dag = build(&meta).unwrap();
    assert_eq!(dag.id_of(0), id("b"));
    assert_eq!(dag.id_of(1), id("a"));
    assert_eq!(dag.graph.node_count(), 2);
    assert_eq!(dag.graph.edge_count(), 2);
    assert_eq!(dag.by_id.get(&id("a")), Some(&1));
    assert_eq!(dag.by_id.get(&id("c")), None);
    assert_eq!(phases(&dag).unwrap(), vec![vec![0], vec![1]]);
}

#[test]
fn phases_are_listed_by_package_id() {
    let meta = workspace(&[
        TestCrate::lib("zeta", vec![]),
        TestCrate::lib("top", vec!["zeta", "alpha", "mid"]),
        TestCrate::lib("alpha", vec![]),
        TestCrate::lib("mid", vec![]),
    ]);
    let dag = build(&meta).unwrap();
    assert_eq!(phases(&dag).unwrap(), vec![vec![2, 3, 0], vec![1]]);
}

#[test]
fn packages_of_a_phase_are_listed_by_name() {
    let mut meta = workspace(&[TestCrate::lib("one", vec![]), TestCrate::lib("two", vec![])]);
    meta.packages[0].name = "zz".into();
    meta.packages[1].name = "aa".into();
    let phases = build_phases(&meta);
    let names: Vec<&str> = phases[0].iter().map(|p| p.name.as_str()).collect();
    assert_eq!(names, vec!["aa", "zz"]);
    assert_eq!(phases[0][0].id, id("two"));
    assert_eq!(phases[0][0].version, "0.1.0");
}

#[test]
fn an_unknown_dependency_is_an_error() {
    let meta = workspace(&[TestCrate::lib("a", vec!["b"]), TestCrate::lib("b", vec!["ghost"])]);
    match build(&meta) {
        Ok(_) => panic!("no error"),
        Err(e) => assert_eq!(
            e,
            format!("resolve node {} references unknown dependency {}", id("b"), id("ghost"))
        ),
    }
}

#[test]
fn a_cycle_is_an_error_and_counts_what_was_emitted() {
    let meta = workspace(&[
        TestCrate::lib("leaf", vec![]),
        TestCrate::lib("a", vec!["b", "leaf"]),
        TestCrate::lib("b", vec!["a"]),
        TestCrate::lib("after", vec!["b"]),
    ]);
    let dag = build(&meta).unwrap();
    assert_eq!(
        phases(&dag).unwrap_err(),
        "dependency graph contains a cycle: emitted 1 of 4 nodes"
    );
}

#[test]
fn the_last_of_several_nodes_with_one_id_counts() {
    let mut meta = workspace(&[
        TestCrate::lib("x", vec![]),
        TestCrate::lib("y", vec![]),
        TestCrate::lib("z", vec!["x"]),
    ]);
    meta.resolve.nodes[1].id = id("x");
    let dag = build(&meta).unwrap();
    assert_eq!(dag.by_id.get(&id("x")), Some(&1));
    assert_eq!(dag.graph.edge_count(), 1);
    assert_eq!(phases(&dag).unwrap(), vec![vec![0, 1], vec![2]]);
}

#[test]
fn ordinary_workspaces_are_within_limits() {
    assert!(within_limits(&workspace(&[TestCrate::lib("a", vec!["b"]), TestCrate::lib("b", vec![])])));
}
