//! The phase-driven build: one `cargo build -p <name>` for every package of a
//! phase, and the next phase when all of them are done.

use vstd::prelude::*;
use vstd::string::StringExecFns;
use crate::graph::Dag;
use crate::metadata::Metadata;
use crate::{layers, metadata, plan, text, waves};

verus! {

/// `std::path::PathBuf`.
#[verifier::external_type_specification]
#[verifier::external_body]
pub struct ExPathBuf(std::path::PathBuf);

/// Configuration of a build.
#[derive(Debug, Clone)]
pub struct BuildConfig {
    pub manifest_path: Option<std::path::PathBuf>,
    pub release: bool,
    /// Max parallel processes per phase.
    pub jobs: usize,
    /// If true, only build workspace members. External packages are still built
    /// implicitly by cargo.
    pub workspace_only: bool,
    /// If true, the unit-graph build runs one cargo process per phase.
    pub batched: bool,
}

/// A step of a build. The steps are taken in order, up to the first that fails.
pub enum BuildStep {
    /// Print this line and start the clock.
    Start(String),
    /// Run cargo once with each of these argument lists, all at the same time, and
    /// wait for all of them.
    Wave(Vec<Vec<String>>),
    /// Print how long it took since the last start.
    End,
}

/// What a [`BuildStep`] holds.
#[verifier::ext_equal]
pub ghost enum StepView {
    Start(Seq<char>),
    Wave(Seq<Seq<Seq<char>>>),
    End,
}

/// The texts of a vector of vectors.
pub open spec fn text_lists(v: Seq<Vec<String>>) -> Seq<Seq<Seq<char>>> {
    v.map_values(|l: Vec<String>| text::texts(l@))
}

impl View for BuildStep {
    type V = StepView;

    open spec fn view(&self) -> StepView {
        match *self {
            BuildStep::Start(line) => StepView::Start(line@),
            BuildStep::Wave(lists) => StepView::Wave(text_lists(lists@)),
            BuildStep::End => StepView::End,
        }
    }
}

/// What the steps of a vector hold.
pub open spec fn step_views(v: Seq<BuildStep>) -> Seq<StepView> {
    v.map_values(|s: BuildStep| s@)
}

pub open spec fn profile_name(release: bool) -> Seq<char> {
    if release {
        "release"@
    } else {
        "debug"@
    }
}

/// The name of a profile.
pub fn profile(release: bool) -> (r: &'static str)
    ensures
        r@ == profile_name(release),
{
    if release {
        "release"
    } else {
        "debug"
    }
}

/// The arguments that make cargo build one package with one job.
pub open spec fn package_args(name: Seq<char>, release: bool) -> Seq<Seq<char>> {
    seq!["build"@, "-p"@, name] + (if release {
        seq!["--release"@]
    } else {
        Seq::empty()
    }) + seq!["-j"@, "1"@]
}

/// The names of the packages to build in a phase: those of the workspace members
/// if only they are built, and none where nothing is known of an id.
pub open spec fn phase_names(
    meta: Metadata,
    ids: Seq<Seq<char>>,
    phase: Seq<usize>,
    workspace_only: bool,
) -> Seq<Seq<char>>
    decreases phase.len(),
{
    if phase.len() == 0 {
        Seq::empty()
    } else {
        let earlier = phase_names(meta, ids, phase.drop_last(), workspace_only);
        let id = ids[phase.last() as int];
        if plan::is_hidden(meta, id, workspace_only) {
            earlier
        } else {
            match metadata::package_for(meta.packages@, id) {
                Some(p) => earlier.push(p.name@),
                None => earlier,
            }
        }
    }
}

pub open spec fn start_line(i: nat, count: nat) -> Seq<char> {
    "phase "@ + text::decimal(i) + " ("@ + text::decimal(count) + " package"@ + (if count == 1 {
        ""@
    } else {
        "s"@
    }) + ")..."@
}

/// One wave of packages.
pub open spec fn wave_step(names: Seq<Seq<char>>, release: bool, w: (nat, nat)) -> StepView {
    StepView::Wave(
        names.subrange(w.0 as int, w.1 as int).map_values(
            |name: Seq<char>| package_args(name, release),
        ),
    )
}

/// The waves of packages.
pub open spec fn wave_steps(names: Seq<Seq<char>>, release: bool, jobs: nat) -> Seq<StepView> {
    waves::waves_from(0, names.len(), waves::width_of(jobs)).map_values(
        |w: (nat, nat)| wave_step(names, release, w),
    )
}

/// The steps of phase `i`. A phase without packages has none.
pub open spec fn phase_steps(
    names: Seq<Seq<char>>,
    i: nat,
    release: bool,
    jobs: nat,
) -> Seq<StepView> {
    if names.len() == 0 {
        Seq::empty()
    } else {
        seq![StepView::Start(start_line(i, names.len()))] + wave_steps(names, release, jobs) + seq![
            StepView::End,
        ]
    }
}

/// The steps of the first `k` phases.
pub open spec fn steps_upto(
    meta: Metadata,
    ids: Seq<Seq<char>>,
    phases: Seq<Seq<usize>>,
    config: BuildConfig,
    k: nat,
) -> Seq<StepView>
    decreases k,
{
    if k == 0 {
        Seq::empty()
    } else {
        steps_upto(meta, ids, phases, config, (k - 1) as nat) + phase_steps(
            phase_names(meta, ids, phases[k - 1], config.workspace_only),
            (k - 1) as nat,
            config.release,
            config.jobs as nat,
        )
    }
}

/// The lines above the build.
pub open spec fn build_header(meta: Metadata, config: BuildConfig, phases: nat) -> Seq<Seq<char>> {
    seq!["parallel-rustc build"@] + (if meta.workspace_root@.len() == 0 {
        Seq::empty()
    } else {
        seq!["workspace: "@ + meta.workspace_root@]
    }) + seq![
        "profile: "@ + profile_name(config.release) + "   jobs/phase: "@ + text::decimal(
            config.jobs as nat,
        ) + "   phases: "@ + text::decimal(phases),
        Seq::empty(),
    ]
}

/// The lines above the build.
pub fn header_lines(meta: &Metadata, config: &BuildConfig, phases: usize) -> (lines: Vec<String>)
    ensures
        text::texts(lines@) == build_header(*meta, *config, phases as nat),
{
    let mut lines: Vec<String> = Vec::new();
    lines.push("parallel-rustc build".to_owned());
    if !meta.workspace_root.as_str().is_empty() {
        let mut root = "workspace: ".to_owned();
        root.append(meta.workspace_root.as_str());
        lines.push(root);
    }
    let mut counts = "profile: ".to_owned();
    counts.append(profile(config.release));
    counts.append("   jobs/phase: ");
    counts.append(text::decimal_text(config.jobs).as_str());
    counts.append("   phases: ");
    counts.append(text::decimal_text(phases).as_str());
    lines.push(counts);
    lines.push(String::new());
    assert(text::texts(lines@) =~= build_header(*meta, *config, phases as nat));
    lines
}

/// The arguments that make cargo build one package with one job. Parallelism is
/// across processes, not within.
pub fn cargo_build_args(pkg: &str, release: bool) -> (args: Vec<String>)
    ensures
        text::texts(args@) == package_args(pkg@, release),
{
    let mut args: Vec<String> = Vec::new();
    args.push("build".to_owned());
    args.push("-p".to_owned());
    args.push(pkg.to_owned());
    if release {
        args.push("--release".to_owned());
    }
    args.push("-j".to_owned());
    args.push("1".to_owned());
    assert(text::texts(args@) =~= package_args(pkg@, release));
    args
}

/// The names of the packages to build in a phase.
pub fn names_to_build(
    meta: &Metadata,
    dag: &Dag,
    phase: &Vec<usize>,
    workspace_only: bool,
) -> (names: Vec<String>)
    requires
        dag.wf(),
        forall|x: int| 0 <= x < phase@.len() ==> #[trigger] phase@[x] < dag.ids().len(),
    ensures
        text::texts(names@) == phase_names(*meta, dag.ids(), phase@, workspace_only),
{
    let ghost ids = dag.ids();
    let mut names: Vec<String> = Vec::new();
    let mut x: usize = 0;
    assert(text::texts(names@) =~= phase_names(*meta, ids, phase@.take(0), workspace_only));
    while x < phase.len()
        invariant
            x <= phase@.len(),
            dag.wf(),
            ids == dag.ids(),
            forall|y: int| 0 <= y < phase@.len() ==> #[trigger] phase@[y] < dag.ids().len(),
            text::texts(names@) == phase_names(*meta, ids, phase@.take(x as int), workspace_only),
        decreases phase@.len() - x,
    {
        let id = dag.id_of(phase[x]);
        let ghost before = text::texts(names@);
        proof {
            let upto = phase@.take(x + 1);
            assert(upto.drop_last() =~= phase@.take(x as int));
            assert(upto.last() == phase@[x as int]);
        }
        if !workspace_only || meta.is_member(id) {
            match metadata::lookup_package(&meta.packages, id) {
                Some(p) => {
                    names.push(p.name.as_str().to_owned());
                    assert(text::texts(names@) =~= before.push(p.name@));
                },
                None => {},
            }
        }
        x += 1;
    }
    assert(phase@.take(x as int) =~= phase@);
    names
}

/// Appends the steps of phase `i`.
fn push_phase_steps(
    names: &Vec<String>,
    i: usize,
    release: bool,
    jobs: usize,
    steps: &mut Vec<BuildStep>,
)
    ensures
        step_views(final(steps)@) == step_views(old(steps)@) + phase_steps(
            text::texts(names@),
            i as nat,
            release,
            jobs as nat,
        ),
{
    let ghost nv = text::texts(names@);
    let ghost start = step_views(steps@);
    if names.len() == 0 {
        assert(start =~= start + phase_steps(nv, i as nat, release, jobs as nat));
        return;
    }
    let mut line = "phase ".to_owned();
    line.append(text::decimal_text(i).as_str());
    line.append(" (");
    line.append(text::decimal_text(names.len()).as_str());
    line.append(" package");
    if names.len() == 1 {
        line.append("");
    } else {
        line.append("s");
    }
    line.append(")...");
    steps.push(BuildStep::Start(line));
    let ghost first = StepView::Start(start_line(i as nat, nv.len()));
    assert(step_views(steps@) =~= start.push(first));
    let ranges = waves::waves(names.len(), jobs);
    let ghost all = wave_steps(nv, release, jobs as nat);
    let ghost wv = waves::bounds(ranges@);
    let mut w: usize = 0;
    assert(start.push(first) + all.take(0) =~= start.push(first));
    while w < ranges.len()
        invariant
            w <= ranges@.len(),
            nv == text::texts(names@),
            wv == waves::bounds(ranges@),
            wv == waves::waves_from(0, nv.len(), waves::width_of(jobs as nat)),
            all == wave_steps(nv, release, jobs as nat),
            forall|x: int|
                0 <= x < ranges@.len() ==> (#[trigger] ranges@[x]).0 < ranges@[x].1 <= nv.len(),
            step_views(steps@) == start.push(first) + all.take(w as int),
        decreases ranges@.len() - w,
    {
        let (from, to) = ranges[w];
        let ghost before = step_views(steps@);
        let mut lists: Vec<Vec<String>> = Vec::new();
        let mut x: usize = from;
        while x < to
            invariant
                from <= x <= to <= names@.len(),
                nv == text::texts(names@),
                lists@.len() == x - from,
                forall|y: int|
                    0 <= y < lists@.len() ==> text::texts((#[trigger] lists@[y])@) == package_args(
                        nv[from + y],
                        release,
                    ),
            decreases to - x,
        {
            lists.push(cargo_build_args(names[x].as_str(), release));
            x += 1;
        }
        proof {
            assert(wv[w as int] == (from as nat, to as nat));
            let args = nv.subrange(from as int, to as int).map_values(
                |name: Seq<char>| package_args(name, release),
            );
            assert(text_lists(lists@) =~= args);
            assert(all[w as int] == wave_step(nv, release, wv[w as int]));
        }
        steps.push(BuildStep::Wave(lists));
        proof {
            assert(step_views(steps@) =~= before.push(all[w as int]));
            assert(all.take(w + 1) =~= all.take(w as int).push(all[w as int]));
            assert(step_views(steps@) =~= start.push(first) + all.take(w + 1));
        }
        w += 1;
    }
    assert(all.take(w as int) =~= all);
    let ghost before = step_views(steps@);
    steps.push(BuildStep::End);
    proof {
        assert(step_views(steps@) =~= before.push(StepView::End));
        assert(step_views(steps@) =~= start + phase_steps(nv, i as nat, release, jobs as nat));
    }
}

/// The steps of a build, phase by phase.
pub fn build_steps(
    meta: &Metadata,
    dag: &Dag,
    phases: &[Vec<usize>],
    config: &BuildConfig,
) -> (steps: Vec<BuildStep>)
    requires
        dag.wf(),
        plan::phases_in_range(*dag, phases@),
    ensures
        step_views(steps@) == steps_upto(
            *meta,
            dag.ids(),
            layers::lists(phases@),
            *config,
            phases@.len(),
        ),
{
    let ghost all = layers::lists(phases@);
    let mut steps: Vec<BuildStep> = Vec::new();
    let mut p: usize = 0;
    assert(step_views(steps@) =~= Seq::<StepView>::empty());
    while p < phases.len()
        invariant
            p <= phases@.len(),
            dag.wf(),
            all == layers::lists(phases@),
            plan::phases_in_range(*dag, phases@),
            step_views(steps@) == steps_upto(*meta, dag.ids(), all, *config, p as nat),
        decreases phases@.len() - p,
    {
        assert forall|x: int|
            0 <= x < phases@[p as int]@.len() implies #[trigger] phases@[p as int]@[x]
            < dag.ids().len() by {}
        let names = names_to_build(meta, dag, &phases[p], config.workspace_only);
        push_phase_steps(&names, p, config.release, config.jobs, &mut steps);
        p += 1;
    }
    steps
}

/// The steps of earlier phases are all taken before those of later ones.
pub proof fn law_phases_run_one_after_another(
    meta: Metadata,
    ids: Seq<Seq<char>>,
    phases: Seq<Seq<usize>>,
    config: BuildConfig,
    j: nat,
    k: nat,
)
    requires
        j <= k,
    ensures
        steps_upto(meta, ids, phases, config, j).is_prefix_of(
            steps_upto(meta, ids, phases, config, k),
        ),
    decreases k,
{
    let all = steps_upto(meta, ids, phases, config, k);
    if j < k {
        law_phases_run_one_after_another(meta, ids, phases, config, j, (k - 1) as nat);
        let some = steps_upto(meta, ids, phases, config, j);
        let most = steps_upto(meta, ids, phases, config, (k - 1) as nat);
        assert forall|i: int| 0 <= i < some.len() implies some[i] == all[i] by {
            assert(some[i] == most[i]);
        }
        assert(some =~= all.subrange(0, some.len() as int));
    } else {
        assert(all =~= all.subrange(0, all.len() as int));
    }
}

/// No wave runs more cargo processes at once than allowed.
pub proof fn law_no_wave_is_too_wide(names: Seq<Seq<char>>, release: bool, jobs: nat, w: int)
    requires
        0 <= w < wave_steps(names, release, jobs).len(),
    ensures
        wave_steps(names, release, jobs)[w] is Wave,
        0 < wave_steps(names, release, jobs)[w]->Wave_0.len() <= waves::width_of(jobs),
{
    waves::law_no_wave_is_too_wide(0, names.len(), waves::width_of(jobs), w);
}

/// A package that is to be built is built, in its phase, by a wave of its own
/// phase's steps.
pub proof fn law_every_package_is_built(
    names: Seq<Seq<char>>,
    i: nat,
    release: bool,
    jobs: nat,
    x: int,
)
    requires
        0 <= x < names.len(),
    ensures
        exists|k: int, y: int|
            0 <= k < phase_steps(names, i, release, jobs).len() && #[trigger] runs_at(
                phase_steps(names, i, release, jobs)[k],
                y,
                package_args(names[x], release),
            ),
{
    let width = waves::width_of(jobs);
    let ws = waves::waves_from(0, names.len(), width);
    waves::law_every_item_is_in_a_wave(0, names.len(), width, x as nat);
    let w = choose|w: int| 0 <= w < ws.len() && (#[trigger] ws[w]).0 <= x < ws[w].1;
    waves::law_no_wave_is_too_wide(0, names.len(), width, w);
    let steps = phase_steps(names, i, release, jobs);
    assert(wave_steps(names, release, jobs)[w] == wave_step(names, release, ws[w]));
    assert(steps[w + 1] == wave_step(names, release, ws[w]));
    assert(runs_at(steps[w + 1], x - ws[w].0, package_args(names[x], release)));
}

/// Entry `y` of the wave runs cargo with these arguments.
pub open spec fn runs_at(step: StepView, y: int, args: Seq<Seq<char>>) -> bool {
    match step {
        StepView::Wave(lists) => 0 <= y < lists.len() && lists[y] == args,
        _ => false,
    }
}

/// How many entries the longest list has.
pub open spec fn is_max_width(phases: Seq<Seq<usize>>, w: nat) -> bool {
    &&& forall|p: int| 0 <= p < phases.len() ==> (#[trigger] phases[p]).len() <= w
    &&& phases.len() == 0 ==> w == 0
    &&& phases.len() > 0 ==> exists|p: int|
        0 <= p < phases.len() && (#[trigger] phases[p]).len() == w
}

/// How many entries the longest list has.
pub fn max_width(phases: &[Vec<usize>]) -> (r: usize)
    ensures
        is_max_width(layers::lists(phases@), r as nat),
{
    let ghost all = layers::lists(phases@);
    let mut r: usize = 0;
    let mut p: usize = 0;
    while p < phases.len()
        invariant
            p <= phases@.len(),
            all == layers::lists(phases@),
            forall|q: int| 0 <= q < p ==> (#[trigger] all[q]).len() <= r,
            p == 0 ==> r == 0,
            p > 0 ==> exists|q: int| 0 <= q < p && (#[trigger] all[q]).len() == r,
        decreases phases@.len() - p,
    {
        assert(all[p as int].len() == phases@[p as int]@.len());
        if phases[p].len() > r {
            r = phases[p].len();
        }
        proof {
            if p == 0 || r == all[p as int].len() {
                assert(all[p as int].len() == r);
            } else {
                let q = choose|q: int| 0 <= q < p && (#[trigger] all[q]).len() == r;
                assert(all[q].len() == r);
            }
        }
        p += 1;
    }
    r
}

} // verus!
