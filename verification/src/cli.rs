//! What the commands do between reading their input and printing their output.

use vstd::prelude::*;
use vstd::string::StringExecFns;
use crate::metadata::Metadata;
use crate::unit_graph::UnitGraphUnit;
use crate::{graph, layers, plan, text, unit_graph};

verus! {

/// How `build` runs.
#[derive(Debug, Clone, Copy, PartialEq, Eq, Structural)]
pub enum Strategy {
    /// One `cargo build -p` per package, phase by phase.
    Cargo,
    /// Rustc invocations recorded by a wrapper and replayed in phases.
    Wrapper,
    /// The unit-graph executor.
    UnitGraph,
}

/// The strategy of this name.
pub open spec fn strategy_named(name: Seq<char>) -> Option<Strategy> {
    if name == "v2"@ || name == "wrapper"@ {
        Some(Strategy::Wrapper)
    } else if name == "v1"@ || name == "cargo"@ {
        Some(Strategy::Cargo)
    } else if name == "v4"@ || name == "unit-graph"@ {
        Some(Strategy::UnitGraph)
    } else {
        None
    }
}

/// Reads the name of a strategy.
pub fn parse_strategy(name: &str) -> (r: Result<Strategy, String>)
    ensures
        match r {
            Ok(s) => strategy_named(name@) == Some(s),
            Err(e) => strategy_named(name@) is None && e@ == "unknown --strategy "@ + name@
                + "; expected v1|v2|v4"@,
        },
{
    if text::same(name, "v2") || text::same(name, "wrapper") {
        Ok(Strategy::Wrapper)
    } else if text::same(name, "v1") || text::same(name, "cargo") {
        Ok(Strategy::Cargo)
    } else if text::same(name, "v4") || text::same(name, "unit-graph") {
        Ok(Strategy::UnitGraph)
    } else {
        let mut e = "unknown --strategy ".to_owned();
        e.append(name);
        e.append("; expected v1|v2|v4");
        Err(e)
    }
}

/// `ph` are the phases of the metadata's graph, each listed by package id.
pub open spec fn are_phases(meta: Metadata, ph: Seq<Seq<usize>>) -> bool {
    layers::is_layering(graph::meta_deps(meta), ph) && layers::in_order(
        graph::meta_dependents(meta),
        graph::id_keys(graph::resolved_ids(meta)),
        ph,
    )
}

/// Why the metadata has no phases.
pub open spec fn phases_error(meta: Metadata, e: Seq<char>) -> bool {
    ||| exists|m: int| #[trigger]
        graph::first_unknown(meta, m) && e == "graph build"@ + ": "@ + graph::unknown_message(
            graph::all_links(meta)[m],
        )
    ||| graph::all_known(meta) && layers::has_cycle(graph::meta_deps(meta)) && e
        == "phase computation"@ + ": "@ + graph::cycle_message(
        layers::reachable(graph::meta_deps(meta)).len(),
        meta.resolve.nodes@.len(),
    )
}

/// The graph and its phases, as the commands that build by packages need them.
pub fn graph_and_phases(loaded: &Result<Metadata, String>) -> (r: Result<
    (graph::Dag, Vec<Vec<usize>>),
    String,
>)
    requires
        match *loaded {
            Ok(meta) => graph::fits(meta),
            Err(_) => true,
        },
    ensures
        match (*loaded, r) {
            (Err(e), Err(m)) => m@ == "cargo metadata"@ + ": "@ + e@,
            (Ok(meta), Ok((dag, ph))) => {
                &&& graph::all_known(meta)
                &&& !layers::has_cycle(graph::meta_deps(meta))
                &&& dag.wf()
                &&& dag.is_indexed()
                &&& dag.ids() == graph::resolved_ids(meta)
                &&& dag.edges() == graph::meta_edges(meta)
                &&& are_phases(meta, layers::lists(ph@))
            },
            (Ok(meta), Err(m)) => phases_error(meta, m@),
            _ => false,
        },
{
    let meta = match loaded {
        Ok(meta) => meta,
        Err(e) => {
            return Err(text::failure("cargo metadata", e.as_str()));
        },
    };
    let dag = match graph::build(meta) {
        Ok(dag) => dag,
        Err(e) => {
            let m = text::failure("graph build", e.as_str());
            assert(phases_error(*meta, m@));
            return Err(m);
        },
    };
    assert(dag.dependents() == graph::meta_dependents(*meta));
    match graph::phases(&dag) {
        Ok(ph) => Ok((dag, ph)),
        Err(e) => Err(text::failure("phase computation", e.as_str())),
    }
}

/// `plan`: the lines to print, from what `cargo metadata` gave.
pub fn run_plan(loaded: Result<Metadata, String>, workspace_only: bool) -> (r: Result<
    Vec<String>,
    String,
>)
    requires
        match loaded {
            Ok(meta) => graph::fits(meta),
            Err(_) => true,
        },
    ensures
        match (loaded, r) {
            (Err(e), Err(m)) => m@ == "cargo metadata"@ + ": "@ + e@,
            (Ok(meta), Ok(lines)) => {
                &&& graph::all_known(meta)
                &&& !layers::has_cycle(graph::meta_deps(meta))
                &&& exists|ph: Seq<Seq<usize>>| #[trigger]
                    are_phases(meta, ph) && text::texts(lines@) == plan::plan_report(
                        meta,
                        graph::resolved_ids(meta),
                        ph,
                        workspace_only,
                        ph.len(),
                    )
            },
            (Ok(meta), Err(m)) => phases_error(meta, m@),
            _ => false,
        },
{
    let (dag, ph) = match graph_and_phases(&loaded) {
        Ok(both) => both,
        Err(e) => {
            return Err(e);
        },
    };
    match loaded {
        Ok(meta) => {
            proof {
                let pv = layers::lists(ph@);
                layers::lemma_layering_total(graph::meta_deps(meta), pv);
                layers::lemma_layering_lists_once(graph::meta_deps(meta), pv);
                assert forall|p: int, x: int|
                    0 <= p < ph@.len() && 0 <= x < ph@[p]@.len() implies #[trigger] ph@[p]@[x]
                    < dag.ids().len() by {
                    assert(pv[p].contains(ph@[p]@[x]));
                }
            }
            Ok(plan::plan_lines(&meta, &dag, ph.as_slice(), workspace_only))
        },
        Err(e) => Err(e),
    }
}

/// Why a unit graph has no phases.
pub open spec fn unit_phases_error(units: Seq<UnitGraphUnit>, e: Seq<char>) -> bool {
    ||| exists|i: int, k: int| #[trigger]
        unit_graph::first_dangling_at(units, i, k) && e == "phase computation"@ + ": "@
            + unit_graph::dangling_message(units, i, k)
    ||| !unit_graph::has_dangling(units) && layers::has_cycle(unit_graph::unit_deps(units)) && e
        == "phase computation"@ + ": "@ + unit_graph::cycle_message(
        layers::reachable(unit_graph::unit_deps(units)).len(),
        units.len(),
    )
}

/// `ph` are the phases of a unit graph, each in its order.
pub open spec fn are_unit_phases(units: Seq<UnitGraphUnit>, ph: Seq<Seq<usize>>) -> bool {
    layers::is_layering(unit_graph::unit_deps(units), ph) && layers::ordered(
        unit_graph::dep_lists(units),
        unit_graph::sort_keys(units),
        ph,
    )
}

/// `plan-v2`: the lines to print, from the unit graph that cargo gave.
pub fn run_plan_v2(fetched: Result<Vec<UnitGraphUnit>, String>, workspace_only: bool) -> (r: Result<
    Vec<String>,
    String,
>)
    ensures
        match (fetched, r) {
            (Err(e), Err(m)) => m@ == "fetch unit-graph"@ + ": "@ + e@,
            (Ok(units), Ok(lines)) => {
                &&& !unit_graph::has_dangling(units@)
                &&& !layers::has_cycle(unit_graph::unit_deps(units@))
                &&& exists|ph: Seq<Seq<usize>>| #[trigger]
                    are_unit_phases(units@, ph) && text::texts(lines@) == unit_graph::plan_report(
                        units@,
                        ph,
                        workspace_only,
                        ph.len(),
                    )
            },
            (Ok(units), Err(m)) => unit_phases_error(units@, m@),
            _ => false,
        },
{
    let units = match fetched {
        Ok(units) => units,
        Err(e) => {
            return Err(text::failure("fetch unit-graph", e.as_str()));
        },
    };
    match unit_graph::assign_phases(units.as_slice()) {
        Ok(ph) => {
            let n: usize = units.len();
            proof {
                let pv = layers::lists(ph@);
                let deps = unit_graph::unit_deps(units@);
                assert(are_unit_phases(units@, pv));
                layers::lemma_layering_total(deps, pv);
                layers::lemma_layering_lists_once(deps, pv);
                assert forall|p: int, x: int|
                    0 <= p < ph@.len() && 0 <= x < ph@[p]@.len() implies #[trigger] ph@[p]@[x]
                    < units@.len() by {
                    assert(pv[p].contains(ph@[p]@[x]));
                }
            }
            Ok(unit_graph::plan_lines(units.as_slice(), ph.as_slice(), workspace_only))
        },
        Err(e) => Err(text::failure("phase computation", e.as_str())),
    }
}

} // verus!
