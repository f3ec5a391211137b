//! The plan of a workspace's phases, as lines of text.

use vstd::prelude::*;
use vstd::string::StringExecFns;
use crate::graph::Dag;
use crate::metadata::Metadata;
use crate::{layers, metadata, text};

verus! {

/// The package gets no line of its own.
pub open spec fn is_hidden(meta: Metadata, id: Seq<char>, workspace_only: bool) -> bool {
    workspace_only && !meta.has_member(id)
}

/// The line of one package: name and version, or its id where nothing more is known.
pub open spec fn package_line(meta: Metadata, id: Seq<char>) -> Seq<char> {
    match metadata::package_for(meta.packages@, id) {
        Some(p) => if p.version@.len() == 0 {
            "  - "@ + p.name@
        } else {
            "  - "@ + p.name@ + " v"@ + p.version@
        },
        None => "  - "@ + id,
    }
}

/// The lines of the packages that are not hidden.
pub open spec fn shown_lines(
    meta: Metadata,
    ids: Seq<Seq<char>>,
    phase: Seq<usize>,
    workspace_only: bool,
) -> Seq<Seq<char>>
    decreases phase.len(),
{
    if phase.len() == 0 {
        Seq::empty()
    } else {
        let earlier = shown_lines(meta, ids, phase.drop_last(), workspace_only);
        let id = ids[phase.last() as int];
        if is_hidden(meta, id, workspace_only) {
            earlier
        } else {
            earlier.push(package_line(meta, id))
        }
    }
}

/// The lines of phase `i`. Where every package of it is hidden, it is only counted.
pub open spec fn phase_lines(
    meta: Metadata,
    ids: Seq<Seq<char>>,
    phase: Seq<usize>,
    i: nat,
    workspace_only: bool,
) -> Seq<Seq<char>> {
    let shown = shown_lines(meta, ids, phase, workspace_only);
    let hidden = (phase.len() - shown.len()) as nat;
    if workspace_only && shown.len() == 0 {
        if hidden > 0 {
            seq!["phase "@ + text::decimal(i) + " ("@ + text::decimal(hidden)
                + " external deps, skipped)"@]
        } else {
            Seq::empty()
        }
    } else if workspace_only && hidden > 0 {
        seq!["phase "@ + text::decimal(i) + " ("@ + text::decimal(shown.len()) + " workspace + "@
            + text::decimal(hidden) + " external, parallel):"@] + shown
    } else {
        seq!["phase "@ + text::decimal(i) + " ("@ + text::decimal(phase.len())
            + " packages, parallel):"@] + shown
    }
}

/// How many packages of the first `k` phases are workspace members.
pub open spec fn member_count(
    meta: Metadata,
    ids: Seq<Seq<char>>,
    phases: Seq<Seq<usize>>,
    k: nat,
) -> nat
    decreases k,
{
    if k == 0 {
        0
    } else {
        member_count(meta, ids, phases, (k - 1) as nat) + shown_lines(
            meta,
            ids,
            phases[k - 1],
            true,
        ).len()
    }
}

/// What stands above the phases.
pub open spec fn header_lines(
    meta: Metadata,
    ids: Seq<Seq<char>>,
    phases: Seq<Seq<usize>>,
    workspace_only: bool,
) -> Seq<Seq<char>> {
    let root = if meta.workspace_root@.len() == 0 {
        Seq::empty()
    } else {
        seq!["workspace: "@ + meta.workspace_root@]
    };
    let counts = if workspace_only {
        "packages: "@ + text::decimal(member_count(meta, ids, phases, phases.len()))
            + " (workspace)   total: "@ + text::decimal(layers::total_len(phases))
            + " (with deps)   phases: "@ + text::decimal(phases.len())
    } else {
        "packages: "@ + text::decimal(layers::total_len(phases)) + "   phases: "@ + text::decimal(
            phases.len(),
        )
    };
    seq!["parallel-rustc plan"@] + root + seq![counts, Seq::empty()]
}

/// The plan up to phase `k`.
pub open spec fn plan_report(
    meta: Metadata,
    ids: Seq<Seq<char>>,
    phases: Seq<Seq<usize>>,
    workspace_only: bool,
    k: nat,
) -> Seq<Seq<char>>
    decreases k,
{
    if k == 0 {
        header_lines(meta, ids, phases, workspace_only)
    } else {
        plan_report(meta, ids, phases, workspace_only, (k - 1) as nat) + phase_lines(
            meta,
            ids,
            phases[k - 1],
            (k - 1) as nat,
            workspace_only,
        )
    }
}

/// The phases list nodes of the graph.
pub open spec fn phases_in_range(dag: Dag, phases: Seq<Vec<usize>>) -> bool {
    forall|p: int, x: int|
        0 <= p < phases.len() && 0 <= x < phases[p]@.len() ==> #[trigger] phases[p]@[x]
            < dag.ids().len()
}

fn package_line_text(meta: &Metadata, id: &str) -> (r: String)
    ensures
        r@ == package_line(*meta, id@),
{
    let mut r = "  - ".to_owned();
    match metadata::lookup_package(&meta.packages, id) {
        Some(p) => {
            r.append(p.name.as_str());
            if !p.version.as_str().is_empty() {
                r.append(" v");
                r.append(p.version.as_str());
            }
        },
        None => {
            r.append(id);
        },
    }
    r
}

/// The lines of the packages that are not hidden.
fn shown(meta: &Metadata, dag: &Dag, phase: &Vec<usize>, workspace_only: bool) -> (r: Vec<String>)
    requires
        dag.wf(),
        forall|x: int| 0 <= x < phase@.len() ==> #[trigger] phase@[x] < dag.ids().len(),
    ensures
        text::texts(r@) == shown_lines(*meta, dag.ids(), phase@, workspace_only),
        r@.len() <= phase@.len(),
{
    let ghost ids = dag.ids();
    let mut r: Vec<String> = Vec::new();
    let mut x: usize = 0;
    assert(text::texts(r@) =~= shown_lines(*meta, ids, phase@.take(0), workspace_only));
    while x < phase.len()
        invariant
            x <= phase@.len(),
            dag.wf(),
            ids == dag.ids(),
            forall|y: int| 0 <= y < phase@.len() ==> #[trigger] phase@[y] < dag.ids().len(),
            text::texts(r@) == shown_lines(*meta, ids, phase@.take(x as int), workspace_only),
            r@.len() <= x,
        decreases phase@.len() - x,
    {
        let id = dag.id_of(phase[x]);
        let ghost before = text::texts(r@);
        proof {
            let upto = phase@.take(x + 1);
            assert(upto.drop_last() =~= phase@.take(x as int));
            assert(upto.last() == phase@[x as int]);
        }
        if !workspace_only || meta.is_member(id) {
            r.push(package_line_text(meta, id));
            assert(text::texts(r@) =~= before.push(package_line(*meta, id@)));
        }
        x += 1;
    }
    assert(phase@.take(x as int) =~= phase@);
    r
}

/// Appends the lines of phase `i`.
fn push_phase_lines(
    meta: &Metadata,
    dag: &Dag,
    phase: &Vec<usize>,
    i: usize,
    workspace_only: bool,
    lines: &mut Vec<String>,
)
    requires
        dag.wf(),
        forall|x: int| 0 <= x < phase@.len() ==> #[trigger] phase@[x] < dag.ids().len(),
    ensures
        text::texts(final(lines)@) == text::texts(old(lines)@) + phase_lines(
            *meta,
            dag.ids(),
            phase@,
            i as nat,
            workspace_only,
        ),
{
    let mut packages = shown(meta, dag, phase, workspace_only);
    let count: usize = packages.len();
    let hidden: usize = phase.len() - count;
    let ghost start = text::texts(lines@);
    let ghost all = text::texts(packages@);
    let mut label = "phase ".to_owned();
    label.append(text::decimal_text(i).as_str());
    label.append(" (");
    if workspace_only && count == 0 {
        if hidden > 0 {
            label.append(text::decimal_text(hidden).as_str());
            label.append(" external deps, skipped)");
            lines.push(label);
            assert(text::texts(lines@) =~= start + seq![label@]);
        } else {
            assert(text::texts(lines@) =~= start + Seq::<Seq<char>>::empty());
        }
        return;
    }
    if workspace_only && hidden > 0 {
        label.append(text::decimal_text(count).as_str());
        label.append(" workspace + ");
        label.append(text::decimal_text(hidden).as_str());
        label.append(" external, parallel):");
    } else {
        label.append(text::decimal_text(phase.len()).as_str());
        label.append(" packages, parallel):");
    }
    lines.push(label);
    assert(text::texts(lines@) =~= start.push(label@));
    lines.append(&mut packages);
    proof {
        assert(text::texts(lines@) =~= start.push(label@) + all);
        assert(start.push(label@) + all =~= start + (seq![label@] + all));
    }
}

/// How many packages of the phases are workspace members.
fn count_members(meta: &Metadata, dag: &Dag, phases: &[Vec<usize>]) -> (r: usize)
    requires
        dag.wf(),
        phases_in_range(*dag, phases@),
        layers::total_len(layers::lists(phases@)) <= usize::MAX,
    ensures
        r == member_count(*meta, dag.ids(), layers::lists(phases@), phases@.len()),
{
    let ghost all = layers::lists(phases@);
    let mut r: usize = 0;
    let mut p: usize = 0;
    while p < phases.len()
        invariant
            p <= phases@.len(),
            dag.wf(),
            all == layers::lists(phases@),
            phases_in_range(*dag, phases@),
            layers::total_len(all) <= usize::MAX,
            r == member_count(*meta, dag.ids(), all, p as nat),
            r <= layers::total_len(all.take(p as int)),
        decreases phases@.len() - p,
    {
        assert forall|x: int| 0 <= x < phases@[p as int]@.len() implies #[trigger] phases@[p as int]@[x]
            < dag.ids().len() by {}
        let members = shown(meta, dag, &phases[p], true);
        proof {
            assert(text::texts(members@).len() == members@.len());
            assert(all.take(p + 1).drop_last() =~= all.take(p as int));
            assert(all.take(p + 1).last() == phases@[p as int]@);
            layers::lemma_total_len_take(all, p + 1);
        }
        r = r + members.len();
        p += 1;
    }
    r
}

/// The plan: a header, then one block per phase listing the packages that compile
/// in parallel.
///
/// With `workspace_only`, only workspace members are listed. The full graph still
/// decides the phases; external packages are counted per phase.
pub fn plan_lines(
    meta: &Metadata,
    dag: &Dag,
    phases: &[Vec<usize>],
    workspace_only: bool,
) -> (lines: Vec<String>)
    requires
        dag.wf(),
        phases_in_range(*dag, phases@),
        layers::total_len(layers::lists(phases@)) <= usize::MAX,
    ensures
        text::texts(lines@) == plan_report(
            *meta,
            dag.ids(),
            layers::lists(phases@),
            workspace_only,
            phases@.len(),
        ),
{
    let ghost all = layers::lists(phases@);
    let ghost ids = dag.ids();
    let mut lines: Vec<String> = Vec::new();
    lines.push("parallel-rustc plan".to_owned());
    if !meta.workspace_root.as_str().is_empty() {
        let mut root = "workspace: ".to_owned();
        root.append(meta.workspace_root.as_str());
        lines.push(root);
    }
    let total = layers::total_entries(phases);
    let mut counts = "packages: ".to_owned();
    if workspace_only {
        counts.append(text::decimal_text(count_members(meta, dag, phases)).as_str());
        counts.append(" (workspace)   total: ");
        counts.append(text::decimal_text(total).as_str());
        counts.append(" (with deps)   phases: ");
        counts.append(text::decimal_text(phases.len()).as_str());
    } else {
        counts.append(text::decimal_text(total).as_str());
        counts.append("   phases: ");
        counts.append(text::decimal_text(phases.len()).as_str());
    }
    lines.push(counts);
    lines.push(String::new());
    proof {
        assert(text::texts(lines@) =~= header_lines(*meta, ids, all, workspace_only));
    }
    let mut p: usize = 0;
    while p < phases.len()
        invariant
            p <= phases@.len(),
            dag.wf(),
            ids == dag.ids(),
            all == layers::lists(phases@),
            phases_in_range(*dag, phases@),
            text::texts(lines@) == plan_report(*meta, ids, all, workspace_only, p as nat),
        decreases phases@.len() - p,
    {
        assert forall|x: int| 0 <= x < phases@[p as int]@.len() implies #[trigger] phases@[p as int]@[x]
            < dag.ids().len() by {}
        push_phase_lines(meta, dag, &phases[p], p, workspace_only, &mut lines);
        p += 1;
    }
    lines
}

/// Without a filter every package of a phase gets a line.
pub proof fn law_unfiltered_plan_lists_every_package(
    meta: Metadata,
    ids: Seq<Seq<char>>,
    phase: Seq<usize>,
)
    ensures
        shown_lines(meta, ids, phase, false) == phase.map_values(
            |x: usize| package_line(meta, ids[x as int]),
        ),
    decreases phase.len(),
{
    let lines = phase.map_values(|x: usize| package_line(meta, ids[x as int]));
    if phase.len() > 0 {
        law_unfiltered_plan_lists_every_package(meta, ids, phase.drop_last());
        let front = phase.drop_last().map_values(|x: usize| package_line(meta, ids[x as int]));
        assert(lines =~= front.push(package_line(meta, ids[phase.last() as int])));
    } else {
        assert(lines =~= Seq::<Seq<char>>::empty());
    }
}

/// With the filter exactly the workspace members of a phase get a line.
pub proof fn law_filtered_plan_lists_the_members(
    meta: Metadata,
    ids: Seq<Seq<char>>,
    phase: Seq<usize>,
)
    ensures
        shown_lines(meta, ids, phase, true) == phase.filter(
            |x: usize| meta.has_member(ids[x as int]),
        ).map_values(|x: usize| package_line(meta, ids[x as int])),
    decreases phase.len(),
{
    let is_member = |x: usize| meta.has_member(ids[x as int]);
    let line = |x: usize| package_line(meta, ids[x as int]);
    if phase.len() > 0 {
        let front = phase.drop_last();
        law_filtered_plan_lists_the_members(meta, ids, front);
        assert(phase =~= front.push(phase.last()));
        front.lemma_filter_push(phase.last(), is_member);
        if is_member(phase.last()) {
            assert(phase.filter(is_member).map_values(line) =~= front.filter(is_member).map_values(
                line,
            ).push(line(phase.last())));
        }
    } else {
        assert(phase =~= Seq::<usize>::empty());
        reveal(Seq::filter);
        assert(phase.filter(is_member).len() == 0);
        assert(phase.filter(is_member).map_values(line) =~= Seq::<Seq<char>>::empty());
    }
}

} // verus!
