//! What the reports say.

use vstd::prelude::*;
use crate::bench;
use crate::builder::{self, BuildConfig};
use crate::builder_v4;
use crate::metadata::{self, Metadata};
use crate::unit_graph::{self, UnitGraphUnit};
use crate::{cli, codegen, graph, layers, plan, text};

verus! {

// ---------------------------------------------------------------------------
// Packages
// ---------------------------------------------------------------------------

/// A package is shown by name and version, without a version by its name, and by its id if
/// nothing is known of it.
pub proof fn law_package_lines(meta: Metadata, id: Seq<char>)
    ensures
        match metadata::package_for(meta.packages@, id) {
            Some(p) => if p.version@.len() > 0 {
                plan::package_line(meta, id) == "  - "@ + p.name@ + " v"@ + p.version@
            } else {
                plan::package_line(meta, id) == "  - "@ + p.name@
            },
            None => plan::package_line(meta, id) == "  - "@ + id,
        },
{
}

/// A phase shows one line for each package that is shown, behind a line that counts them;
/// packages outside the workspace are shown, counted apart or skipped.
pub proof fn law_phase_lines(
    meta: Metadata,
    ids: Seq<Seq<char>>,
    phase: Seq<usize>,
    i: nat,
)
    ensures
        ({
            let members = phase.filter(
                |x: usize| text::texts(meta.workspace_members@).contains(ids[x as int]),
            );
            let line = |x: usize| plan::package_line(meta, ids[x as int]);
            let n = text::decimal(i);
            let inside = text::decimal(members.len());
            let outside = text::decimal((phase.len() - members.len()) as nat);
            let whole = seq![
                "phase "@ + n + " ("@ + text::decimal(phase.len()) + " packages, parallel):"@,
            ];
            &&& members.len() <= phase.len()
            &&& plan::phase_lines(meta, ids, phase, i, false) == whole + phase.map_values(line)
            &&& members.len() == phase.len() && phase.len() > 0 ==> plan::phase_lines(
                meta,
                ids,
                phase,
                i,
                true,
            ) == whole + members.map_values(line)
            &&& 0 < members.len() < phase.len() ==> plan::phase_lines(meta, ids, phase, i, true)
                == seq![
                "phase "@ + n + " ("@ + inside + " workspace + "@ + outside
                    + " external, parallel):"@,
            ] + members.map_values(line)
            &&& members.len() == 0 && phase.len() > 0 ==> plan::phase_lines(
                meta,
                ids,
                phase,
                i,
                true,
            ) == seq!["phase "@ + n + " ("@ + outside + " external deps, skipped)"@]
            &&& phase.len() == 0 ==> plan::phase_lines(meta, ids, phase, i, true).len() == 0
        }),
{
    let inside = |x: usize| meta.has_member(ids[x as int]);
    let also = |x: usize| text::texts(meta.workspace_members@).contains(ids[x as int]);
    let line = |x: usize| plan::package_line(meta, ids[x as int]);
    plan::law_unfiltered_plan_lists_every_package(meta, ids, phase);
    plan::law_filtered_plan_lists_the_members(meta, ids, phase);
    lemma_same_filter(phase, inside, also);
    lemma_filter_len(phase, also);
    let members = phase.filter(also);
    assert(plan::shown_lines(meta, ids, phase, true) == members.map_values(line));
    assert(members.map_values(line).len() == members.len());
    assert(phase.map_values(line).len() == phase.len());
}

proof fn lemma_same_filter(s: Seq<usize>, f: spec_fn(usize) -> bool, g: spec_fn(usize) -> bool)
    requires
        forall|x: usize| #[trigger] f(x) == g(x),
    ensures
        s.filter(f) == s.filter(g),
    decreases s.len(),
{
    reveal(Seq::filter);
    if s.len() > 0 {
        lemma_same_filter(s.drop_last(), f, g);
        assert(f(s.last()) == g(s.last()));
    }
}

proof fn lemma_filter_len(s: Seq<usize>, f: spec_fn(usize) -> bool)
    ensures
        s.filter(f).len() <= s.len(),
    decreases s.len(),
{
    reveal(Seq::filter);
    if s.len() > 0 {
        lemma_filter_len(s.drop_last(), f);
    }
}

/// The members of a workspace are counted phase by phase.
pub proof fn law_members_are_counted(
    meta: Metadata,
    ids: Seq<Seq<char>>,
    phases: Seq<Seq<usize>>,
    k: nat,
)
    ensures
        plan::member_count(meta, ids, phases, 0) == 0,
        plan::member_count(meta, ids, phases, k + 1) == plan::member_count(meta, ids, phases, k)
            + phases[k as int].filter(
            |x: usize| text::texts(meta.workspace_members@).contains(ids[x as int]),
        ).len(),
{
    let inside = |x: usize| meta.has_member(ids[x as int]);
    let also = |x: usize| text::texts(meta.workspace_members@).contains(ids[x as int]);
    plan::law_filtered_plan_lists_the_members(meta, ids, phases[k as int]);
    lemma_same_filter(phases[k as int], inside, also);
}

/// The head of a plan: its title, the workspace where it is known, and the counts.
pub proof fn law_plan_headers(
    meta: Metadata,
    ids: Seq<Seq<char>>,
    phases: Seq<Seq<usize>>,
)
    ensures
        ({
            let title = seq!["parallel-rustc plan"@];
            let root = seq!["workspace: "@ + meta.workspace_root@];
            let total = text::decimal(layers::total_len(phases));
            let n = text::decimal(phases.len());
            let inside = text::decimal(plan::member_count(meta, ids, phases, phases.len()));
            let whole = seq!["packages: "@ + total + "   phases: "@ + n, ""@];
            let part = seq![
                "packages: "@ + inside + " (workspace)   total: "@ + total
                    + " (with deps)   phases: "@ + n,
                ""@,
            ];
            let known = meta.workspace_root@.len() > 0;
            &&& known ==> plan::header_lines(meta, ids, phases, false) == title + root + whole
            &&& known ==> plan::header_lines(meta, ids, phases, true) == title + root + part
            &&& !known ==> plan::header_lines(meta, ids, phases, false) == title + whole
            &&& !known ==> plan::header_lines(meta, ids, phases, true) == title + part
        }),
{
    reveal_strlit("");
    assert(""@ =~= Seq::<char>::empty());
    let title = seq!["parallel-rustc plan"@];
    assert(title + Seq::<Seq<char>>::empty() =~= title);
    let root = seq!["workspace: "@ + meta.workspace_root@];
    let a = plan::header_lines(meta, ids, phases, false);
    let b = plan::header_lines(meta, ids, phases, true);
    if meta.workspace_root@.len() > 0 {
        assert(a =~= title + root + a.skip(2));
        assert(b =~= title + root + b.skip(2));
    } else {
        assert(a =~= title + a.skip(1));
        assert(b =~= title + b.skip(1));
    }
}

/// A plan shows its head, and then phase after phase.
pub proof fn law_plans_go_on_by_phase(
    meta: Metadata,
    ids: Seq<Seq<char>>,
    phases: Seq<Seq<usize>>,
    workspace_only: bool,
    k: nat,
)
    ensures
        plan::plan_report(meta, ids, phases, workspace_only, 0) == plan::header_lines(
            meta,
            ids,
            phases,
            workspace_only,
        ),
        plan::plan_report(meta, ids, phases, workspace_only, k + 1) == plan::plan_report(
            meta,
            ids,
            phases,
            workspace_only,
            k,
        ) + plan::phase_lines(meta, ids, phases[k as int], k, workspace_only),
{
}

// ---------------------------------------------------------------------------
// Units
// ---------------------------------------------------------------------------

/// A unit is shown by its name, its version if it is known, its mode unless it is built,
/// and its features if it has any.
pub proof fn law_unit_lines(u: UnitGraphUnit)
    ensures
        ({
            let version = match text::optional(u.pkg_version) {
                Some(v) => " v"@ + v,
                None => ""@,
            };
            let mode = " ("@ + u.mode@ + ")"@;
            let features = " ["@ + text::joined(text::texts(u.features@), ","@) + "]"@;
            let named = "  - "@ + u.name@ + version;
            let built = u.mode@ == "build"@;
            let bare = u.features@.len() == 0;
            &&& built && bare ==> unit_graph::unit_line(u) == named
            &&& built && !bare ==> unit_graph::unit_line(u) == named + features
            &&& !built && bare ==> unit_graph::unit_line(u) == named + mode
            &&& !built && !bare ==> unit_graph::unit_line(u) == named + mode + features
        }),
{
    reveal_strlit("");
    assert(""@ =~= Seq::<char>::empty());
    let version = match text::optional(u.pkg_version) {
        Some(v) => " v"@ + v,
        None => ""@,
    };
    let mode = " ("@ + u.mode@ + ")"@;
    let named = "  - "@ + u.name@ + version;
    let none = Seq::<char>::empty();
    assert(named + none =~= named);
    assert(named + mode + none =~= named + mode);
}

/// Of a phase the units are shown that compile something, in their order; of those, if
/// only the workspace is shown, the ones that lie at a path. Runs of build scripts are
/// counted.
pub proof fn law_shown_units(units: Seq<UnitGraphUnit>, phase: Seq<usize>, i: nat)
    ensures
        ({
            let compiled = |x: usize| units[x as int].mode@ != "run-custom-build"@;
            let local = |x: usize|
                units[x as int].mode@ != "run-custom-build"@ && text::has_prefix(
                    units[x as int].pkg_id@,
                    "path+file://"@,
                );
            let run = |x: usize| units[x as int].mode@ == "run-custom-build"@;
            let line = |x: usize| unit_graph::unit_line(units[x as int]);
            let runs = phase.filter(run).len();
            let all = phase.filter(compiled);
            let part = phase.filter(local);
            &&& unit_graph::phase_lines(units, phase, i, false) == seq![
                unit_graph::phase_label(i, all.len(), runs),
            ] + all.map_values(line)
            &&& unit_graph::phase_lines(units, phase, i, true) == seq![
                unit_graph::phase_label(i, part.len(), runs),
            ] + part.map_values(line)
        }),
{
    let compiled = |x: usize| units[x as int].mode@ != "run-custom-build"@;
    let local = |x: usize|
        units[x as int].mode@ != "run-custom-build"@ && text::has_prefix(
            units[x as int].pkg_id@,
            "path+file://"@,
        );
    let run = |x: usize| units[x as int].mode@ == "run-custom-build"@;
    lemma_same_filter(phase, |x: usize| unit_graph::is_shown(units[x as int], false), compiled);
    lemma_same_filter(phase, |x: usize| unit_graph::is_shown(units[x as int], true), local);
    lemma_same_filter(phase, |x: usize| unit_graph::is_build_script_run(units[x as int]), run);
}

/// The line of a phase says its number and how many units are shown, with the runs of
/// build scripts if there are any.
pub proof fn law_phase_labels(i: nat, shown: nat, runs: nat)
    ensures
        unit_graph::phase_label(i, shown, 0) == "phase "@ + text::decimal(i) + " ("@
            + text::decimal(shown) + " units, parallel):"@,
        runs > 0 ==> unit_graph::phase_label(i, shown, runs) == "phase "@ + text::decimal(i)
            + " ("@ + text::decimal(shown) + " rustc + "@ + text::decimal(runs)
            + " build-script runs, parallel):"@,
{
}

/// A plan of units shows its title and the counts, an empty line, and then phase after
/// phase.
pub proof fn law_unit_plans_go_on_by_phase(
    units: Seq<UnitGraphUnit>,
    phases: Seq<Seq<usize>>,
    workspace_only: bool,
    k: nat,
)
    ensures
        unit_graph::plan_report(units, phases, workspace_only, 0) == seq![
            "parallel-rustc plan (unit-graph, v0.3.0)"@,
            "units: "@ + text::decimal(layers::total_len(phases)) + "   phases: "@
                + text::decimal(phases.len()),
            ""@,
        ],
        unit_graph::plan_report(units, phases, workspace_only, k + 1) == unit_graph::plan_report(
            units,
            phases,
            workspace_only,
            k,
        ) + unit_graph::phase_lines(units, phases[k as int], k, workspace_only),
{
    reveal_strlit("");
    assert(""@ =~= Seq::<char>::empty());
}

// ---------------------------------------------------------------------------
// Builds
// ---------------------------------------------------------------------------

/// The lines that a build shows before a phase.
pub proof fn law_start_lines(i: nat, count: nat, jobs: nat)
    ensures
        builder::start_line(i, 1) == "phase "@ + text::decimal(i) + " ("@ + text::decimal(1)
            + " package"@ + ")..."@,
        count != 1 ==> builder::start_line(i, count) == "phase "@ + text::decimal(i) + " ("@
            + text::decimal(count) + " packages"@ + ")..."@,
        builder_v4::isolated_line(i, 1) == "  phase "@ + text::decimal(i) + " ("@ + text::decimal(1)
            + " pkg"@ + ")…"@,
        count != 1 ==> builder_v4::isolated_line(i, count) == "  phase "@ + text::decimal(i)
            + " ("@ + text::decimal(count) + " pkgs"@ + ")…"@,
        builder_v4::batch_line(i, count, jobs) == "  phase "@ + text::decimal(i) + " batched: "@
            + text::decimal(count) + " pkgs, -j"@ + text::decimal(jobs),
{
    reveal_strlit("");
    reveal_strlit("s");
    reveal_strlit(" package");
    reveal_strlit(" packages");
    reveal_strlit(" pkg");
    reveal_strlit(" pkgs");
    assert(" package"@ + "s"@ =~= " packages"@);
    assert(" pkg"@ + "s"@ =~= " pkgs"@);
    assert(builder::start_line(i, 1) =~= "phase "@ + text::decimal(i) + " ("@ + text::decimal(1)
        + " package"@ + ")..."@);
    assert(builder_v4::isolated_line(i, 1) =~= "  phase "@ + text::decimal(i) + " ("@
        + text::decimal(1) + " pkg"@ + ")…"@);
    if count != 1 {
        assert(builder::start_line(i, count) =~= "phase "@ + text::decimal(i) + " ("@
            + text::decimal(count) + " packages"@ + ")..."@);
        assert(builder_v4::isolated_line(i, count) =~= "  phase "@ + text::decimal(i) + " ("@
            + text::decimal(count) + " pkgs"@ + ")…"@);
    }
}

/// The head of a build: its title, the workspace where it is known, and how it runs.
pub proof fn law_build_headers(meta: Metadata, config: BuildConfig, phases: nat)
    ensures
        ({
            let title = seq!["parallel-rustc build"@];
            let root = seq!["workspace: "@ + meta.workspace_root@];
            let numbers = "   jobs/phase: "@ + text::decimal(config.jobs as nat) + "   phases: "@
                + text::decimal(phases);
            let how = if config.release {
                "profile: release"@ + numbers
            } else {
                "profile: debug"@ + numbers
            };
            &&& meta.workspace_root@.len() > 0 ==> builder::build_header(meta, config, phases)
                == title + root + seq![how, ""@]
            &&& meta.workspace_root@.len() == 0 ==> builder::build_header(meta, config, phases)
                == title + seq![how, ""@]
        }),
{
    reveal_strlit("");
    reveal_strlit("profile: ");
    reveal_strlit("release");
    reveal_strlit("debug");
    reveal_strlit("profile: release");
    reveal_strlit("profile: debug");
    assert(""@ =~= Seq::<char>::empty());
    assert("profile: "@ + "release"@ =~= "profile: release"@);
    assert("profile: "@ + "debug"@ =~= "profile: debug"@);
    let numbers = "   jobs/phase: "@ + text::decimal(config.jobs as nat) + "   phases: "@
        + text::decimal(phases);
    let profile = "profile: "@ + builder::profile_name(config.release);
    let how = profile + numbers;
    assert(profile + "   jobs/phase: "@ + text::decimal(config.jobs as nat) + "   phases: "@
        + text::decimal(phases) =~= how);
    let title = seq!["parallel-rustc build"@];
    let root = seq!["workspace: "@ + meta.workspace_root@];
    let header = builder::build_header(meta, config, phases);
    if meta.workspace_root@.len() > 0 {
        assert(header =~= title + root + seq![how, ""@]);
    } else {
        assert(header =~= title + seq![how, ""@]);
    }
}

/// The head of a measurement, and its figures on the phases.
pub proof fn law_bench_reports(
    meta: Metadata,
    config: BuildConfig,
    phases: Seq<Seq<usize>>,
    width: nat,
)
    ensures
        ({
            let title = seq!["parallel-rustc bench"@];
            let root = seq!["workspace: "@ + meta.workspace_root@];
            let profile = if config.release {
                "release"@
            } else {
                "debug"@
            };
            let rest = seq![
                ""@,
                "Running 3 build modes (cold builds, "@ + profile + ")..."@,
                ""@,
            ];
            &&& meta.workspace_root@.len() > 0 ==> bench::header_of(meta, config) == title + root
                + rest
            &&& meta.workspace_root@.len() == 0 ==> bench::header_of(meta, config) == title + rest
        }),
        bench::phase_figures(phases, width) == seq![
            "  phases used:     "@ + bench::right_aligned(text::decimal(phases.len()), 5),
            "  max phase width: "@ + bench::right_aligned(text::decimal(width), 5),
        ],
{
    reveal_strlit("");
    assert(""@ =~= Seq::<char>::empty());
    let title = seq!["parallel-rustc bench"@];
    let root = seq!["workspace: "@ + meta.workspace_root@];
    let header = bench::header_of(meta, config);
    if meta.workspace_root@.len() > 0 {
        assert(header =~= title + root + header.skip(2));
    } else {
        assert(header =~= title + header.skip(1));
    }
}

/// What a measurement says before each of its builds.
pub proof fn law_bench_lines(config: BuildConfig)
    ensures
        ({
            let steps = bench::steps_of(config);
            let jobs = text::decimal(config.jobs as nat);
            &&& steps[0] == bench::StepView::Say("  [1/3] serial (-j1)         ..."@)
            &&& steps[3] == bench::StepView::Say("  [2/3] cargo parallel (-j"@ + jobs + ") ..."@)
            &&& steps[6] == bench::StepView::Say("  [3/3] parallel-rustc (-j"@ + jobs + ") ..."@)
        }),
{
}

// ---------------------------------------------------------------------------
// Failures
// ---------------------------------------------------------------------------

/// A cycle is reported with how many nodes were reached, of how many.
pub proof fn law_cycles_are_reported(reached: nat, n: nat)
    ensures
        graph::cycle_message(reached, n) == "dependency graph contains a cycle: emitted "@
            + text::decimal(reached) + " of "@ + text::decimal(n) + " nodes"@,
        unit_graph::cycle_message(reached, n) == "unit graph contains a cycle: emitted "@
            + text::decimal(reached) + " of "@ + text::decimal(n) + " units"@,
        codegen::incomplete_message(reached, n) == "DAG executor: "@ + text::decimal(reached)
            + "/"@ + text::decimal(n) + " completed (dependency cycle?)"@,
{
}

/// A dependency that is unknown is reported with the node that names it, the first such in
/// the order of the nodes.
pub proof fn law_unknown_dependencies_are_reported(meta: Metadata, m: int, x: int)
    requires
        graph::first_unknown(meta, m),
        0 <= x < graph::all_links(meta).len(),
    ensures
        0 <= m < graph::all_links(meta).len(),
        x < m ==> graph::resolved_ids(meta).contains(graph::all_links(meta)[x].0),
        !graph::resolved_ids(meta).contains(graph::all_links(meta)[m].0),
        graph::unknown_message(graph::all_links(meta)[m]) == "resolve node "@
            + graph::all_links(meta)[m].1 + " references unknown dependency "@
            + graph::all_links(meta)[m].0,
{
    if x < m {
        assert(graph::resolved_ids(meta).contains(graph::all_links(meta)[x].0));
    }
}

/// A dependency that is no unit is reported with the unit that names it.
pub proof fn law_dangling_units_are_reported(units: Seq<UnitGraphUnit>, i: int, k: int)
    requires
        0 <= i < units.len(),
        0 <= k < units[i].dependencies@.len(),
    ensures
        unit_graph::dangling_message(units, i, k) == "unit "@ + text::decimal(i as nat) + " ("@
            + units[i].name@ + ") references out-of-range dep index "@ + text::decimal(
            units[i].dependencies@[k].index as nat,
        ),
{
}

/// A plan fails for an unknown dependency or for a cycle, and says which.
pub proof fn law_failed_plans(
    meta: Metadata,
    e: Seq<char>,
    units: Seq<UnitGraphUnit>,
    f: Seq<char>,
)
    ensures
        cli::phases_error(meta, e) && graph::all_known(meta) ==> layers::has_cycle(
            graph::meta_deps(meta),
        ) && e == "phase computation: "@ + graph::cycle_message(
            layers::reachable(graph::meta_deps(meta)).len(),
            meta.resolve.nodes@.len(),
        ),
        cli::phases_error(meta, e) && !graph::all_known(meta) ==> exists|m: int| #[trigger]
            graph::first_unknown(meta, m) && e == "graph build: "@ + graph::unknown_message(
                graph::all_links(meta)[m],
            ),
        cli::unit_phases_error(units, f) && !unit_graph::has_dangling(units) ==> layers::has_cycle(
            unit_graph::unit_deps(units),
        ) && f == "phase computation: "@ + unit_graph::cycle_message(
            layers::reachable(unit_graph::unit_deps(units)).len(),
            units.len(),
        ),
        cli::unit_phases_error(units, f) && unit_graph::has_dangling(units) ==> exists|
            i: int,
            k: int,
        | #[trigger]
            unit_graph::first_dangling_at(units, i, k) && f == "phase computation: "@
                + unit_graph::dangling_message(units, i, k),
{
    reveal_strlit(": ");
    reveal_strlit("phase computation");
    reveal_strlit("phase computation: ");
    reveal_strlit("graph build");
    reveal_strlit("graph build: ");
    assert("phase computation"@ + ": "@ =~= "phase computation: "@);
    assert("graph build"@ + ": "@ =~= "graph build: "@);
    if graph::all_known(meta) {
        assert forall|m: int| !#[trigger] graph::first_unknown(meta, m) by {
            if graph::first_unknown(meta, m) {
                assert(graph::resolved_ids(meta).contains(graph::all_links(meta)[m].0));
            }
        }
    }
    if !unit_graph::has_dangling(units) {
        assert forall|i: int, k: int| !#[trigger] unit_graph::first_dangling_at(units, i, k) by {
            if unit_graph::first_dangling_at(units, i, k) {
                assert(unit_graph::dangling_at(units, i, k));
            }
        }
    }
}

} // verus!
