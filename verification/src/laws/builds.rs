//! What the builds run.

use vstd::prelude::*;
use crate::bench;
use crate::builder::{self, BuildConfig, StepView};
use crate::builder_v4::{self, IsolatedView, V4View};
use crate::builder_v5;
use crate::cli::{self, Strategy};
use crate::laws::{packages, texts};
use crate::metadata::{self, Metadata};
use crate::trees::{self, EntryAction, EntryKind};
use crate::unit_graph::UnitGraphUnit;
use crate::{paths, text, waves};

verus! {

// ---------------------------------------------------------------------------
// Arguments
// ---------------------------------------------------------------------------

/// A package is built alone, by one job, in the profile that was asked for.
pub proof fn law_package_arguments(name: Seq<char>)
    ensures
        builder::package_args(name, false) == seq!["build"@, "-p"@, name, "-j"@, "1"@],
        builder::package_args(name, true) == seq![
            "build"@,
            "-p"@,
            name,
            "--release"@,
            "-j"@,
            "1"@,
        ],
{
    assert(builder::package_args(name, false) =~= seq!["build"@, "-p"@, name, "-j"@, "1"@]);
    assert(builder::package_args(name, true) =~= seq![
        "build"@,
        "-p"@,
        name,
        "--release"@,
        "-j"@,
        "1"@,
    ]);
}

/// A workspace is built as a whole, by as many jobs as are given, in the profile that was
/// asked for; the pass that only queues leaves the number of jobs open, and so does the
/// last pass over isolated builds.
pub proof fn law_workspace_arguments(jobs: nat, config: BuildConfig)
    ensures
        bench::workspace_args(false, jobs) == seq!["build"@, "-j"@, text::decimal(jobs)],
        bench::workspace_args(true, jobs) == seq![
            "build"@,
            "--release"@,
            "-j"@,
            text::decimal(jobs),
        ],
        builder_v5::forward_pass_args(false) == seq!["build"@],
        builder_v5::forward_pass_args(true) == seq!["build"@, "--release"@],
        config.batched ==> builder_v4::last_args(config) is None,
        !config.batched ==> builder_v4::last_args(config) == Some(
            builder_v5::forward_pass_args(config.release),
        ),
{
    assert(bench::workspace_args(false, jobs) =~= seq!["build"@, "-j"@, text::decimal(jobs)]);
    assert(bench::workspace_args(true, jobs) =~= seq![
        "build"@,
        "--release"@,
        "-j"@,
        text::decimal(jobs),
    ]);
}

/// A batch names all of its packages in their order, and runs as many jobs as are given.
pub proof fn law_batch_arguments(
    units: Seq<UnitGraphUnit>,
    a: Seq<usize>,
    x: usize,
    b: Seq<usize>,
    config: BuildConfig,
)
    ensures
        builder_v4::spec_args(units, Seq::empty()) == Seq::<Seq<char>>::empty(),
        builder_v4::spec_args(units, seq![x]) == seq!["-p"@, builder_v4::spec_of(units[x as int])],
        builder_v4::spec_args(units, a + b) == builder_v4::spec_args(units, a)
            + builder_v4::spec_args(units, b),
        ({
            let args = builder_v4::batch_args(units, a, config);
            let named = builder_v4::spec_args(units, a);
            let jobs = text::decimal(config.jobs as nat);
            &&& config.release ==> args == seq!["build"@] + named + seq!["--release"@, "-j"@, jobs]
            &&& !config.release ==> args == seq!["build"@] + named + seq!["-j"@, jobs]
        }),
    decreases b.len(),
{
    let none = Seq::<usize>::empty();
    assert(builder_v4::spec_args(units, none) =~= Seq::<Seq<char>>::empty());
    assert(seq![x].drop_last() =~= none);
    assert(builder_v4::spec_args(units, seq![x]) =~= seq![
        "-p"@,
        builder_v4::spec_of(units[x as int]),
    ]);
    if b.len() == 0 {
        assert(a + b =~= a);
        assert(builder_v4::spec_args(units, a + b) =~= builder_v4::spec_args(units, a)
            + builder_v4::spec_args(units, b));
    } else {
        law_batch_arguments(units, a, x, b.drop_last(), config);
        assert((a + b).drop_last() =~= a + b.drop_last());
        assert((a + b).last() == b.last());
        assert(builder_v4::spec_args(units, a + b) =~= builder_v4::spec_args(units, a)
            + builder_v4::spec_args(units, b));
    }
    let args = builder_v4::batch_args(units, a, config);
    let named = builder_v4::spec_args(units, a);
    let jobs = text::decimal(config.jobs as nat);
    if config.release {
        assert(args =~= seq!["build"@] + named + seq!["--release"@, "-j"@, jobs]);
    } else {
        assert(args =~= seq!["build"@] + named + seq!["-j"@, jobs]);
    }
}

/// A package is named with its version where this is known.
pub proof fn law_package_specs(u: UnitGraphUnit)
    ensures
        match text::optional(u.pkg_version) {
            Some(v) => builder_v4::spec_of(u) == u.pkg_name@ + seq!['@'] + v,
            None => builder_v4::spec_of(u) == u.pkg_name@,
        },
{
    reveal_strlit("@");
    assert("@"@ =~= seq!['@']);
}

// ---------------------------------------------------------------------------
// Steps of the build by packages
// ---------------------------------------------------------------------------

/// The argument lists of all waves, in their order.
pub open spec fn all_runs(steps: Seq<StepView>) -> Seq<Seq<Seq<char>>>
    decreases steps.len(),
{
    if steps.len() == 0 {
        Seq::empty()
    } else {
        all_runs(steps.drop_last()) + match steps.last() {
            StepView::Wave(lists) => lists,
            _ => Seq::empty(),
        }
    }
}

proof fn lemma_all_runs(a: Seq<StepView>, b: Seq<StepView>)
    ensures
        all_runs(a + b) == all_runs(a) + all_runs(b),
    decreases b.len(),
{
    if b.len() == 0 {
        assert(a + b =~= a);
        assert(all_runs(a + b) =~= all_runs(a) + all_runs(b));
    } else {
        lemma_all_runs(a, b.drop_last());
        assert((a + b).drop_last() =~= a + b.drop_last());
        assert((a + b).last() == b.last());
        assert(all_runs(a + b) =~= all_runs(a) + all_runs(b));
    }
}

proof fn lemma_one_step(step: StepView)
    ensures
        all_runs(seq![step]) == match step {
            StepView::Wave(lists) => lists,
            _ => Seq::empty(),
        },
{
    assert(seq![step].drop_last() =~= Seq::<StepView>::empty());
    assert(all_runs(Seq::<StepView>::empty()) =~= Seq::<Seq<Seq<char>>>::empty());
    assert(all_runs(seq![step]) =~= match step {
        StepView::Wave(lists) => lists,
        _ => Seq::empty(),
    });
}

proof fn lemma_waves_run(names: Seq<Seq<char>>, release: bool, from: nat, width: nat)
    requires
        width > 0,
        from <= names.len(),
    ensures
        all_runs(
            waves::waves_from(from, names.len(), width).map_values(
                |w: (nat, nat)| builder::wave_step(names, release, w),
            ),
        ) == names.skip(from as int).map_values(
            |name: Seq<char>| builder::package_args(name, release),
        ),
    decreases names.len() - from,
{
    let n = names.len();
    let all = waves::waves_from(from, n, width);
    let step = |w: (nat, nat)| builder::wave_step(names, release, w);
    let args = |name: Seq<char>| builder::package_args(name, release);
    let steps = all.map_values(step);
    if from >= n {
        assert(steps =~= Seq::<StepView>::empty());
        assert(all_runs(steps) =~= names.skip(from as int).map_values(args));
    } else {
        let to = if n - from <= width {
            n
        } else {
            from + width
        };
        let rest = waves::waves_from(to, n, width);
        lemma_waves_run(names, release, to, width);
        assert(steps =~= seq![step((from, to))] + rest.map_values(step));
        lemma_all_runs(seq![step((from, to))], rest.map_values(step));
        lemma_one_step(step((from, to)));
        assert(all_runs(steps) =~= names.skip(from as int).map_values(args));
    }
}

/// A phase builds every package once, in the order of its names, and nothing else; its
/// waves stand between a line that names it and its end.
pub proof fn law_phases_build_their_packages(
    names: Seq<Seq<char>>,
    i: nat,
    release: bool,
    jobs: nat,
)
    ensures
        all_runs(builder::phase_steps(names, i, release, jobs)) == names.map_values(
            |name: Seq<char>| builder::package_args(name, release),
        ),
        names.len() == 0 ==> builder::phase_steps(names, i, release, jobs).len() == 0,
        names.len() > 0 ==> builder::phase_steps(names, i, release, jobs).first() is Start,
        names.len() > 0 ==> builder::phase_steps(names, i, release, jobs).last() is End,
{
    let steps = builder::phase_steps(names, i, release, jobs);
    let args = |name: Seq<char>| builder::package_args(name, release);
    if names.len() == 0 {
        assert(all_runs(steps) =~= names.map_values(args));
    } else {
        let start = seq![StepView::Start(builder::start_line(i, names.len()))];
        let middle = builder::wave_steps(names, release, jobs);
        let end = seq![StepView::End];
        assert(steps =~= start + middle + end);
        lemma_waves_run(names, release, 0, waves::width_of(jobs));
        assert(names.skip(0) =~= names);
        lemma_all_runs(start + middle, end);
        lemma_all_runs(start, middle);
        lemma_one_step(start[0]);
        lemma_one_step(end[0]);
        assert(all_runs(steps) =~= names.map_values(args));
        assert(steps.first() == start[0]);
        assert(steps.last() == end[0]);
    }
}

/// The build goes on phase by phase: each adds its packages behind those of the phases
/// before it.
pub proof fn law_builds_go_on_by_phase(
    meta: Metadata,
    ids: Seq<Seq<char>>,
    phases: Seq<Seq<usize>>,
    config: BuildConfig,
    k: nat,
)
    ensures
        all_runs(builder::steps_upto(meta, ids, phases, config, 0)).len() == 0,
        all_runs(builder::steps_upto(meta, ids, phases, config, k + 1)) == all_runs(
            builder::steps_upto(meta, ids, phases, config, k),
        ) + builder::phase_names(
            meta,
            ids,
            phases[k as int],
            config.workspace_only,
        ).map_values(|name: Seq<char>| builder::package_args(name, config.release)),
{
    let names = builder::phase_names(meta, ids, phases[k as int], config.workspace_only);
    lemma_all_runs(
        builder::steps_upto(meta, ids, phases, config, k),
        builder::phase_steps(names, k, config.release, config.jobs as nat),
    );
    law_phases_build_their_packages(names, k, config.release, config.jobs as nat);
}

/// Of a phase the packages that are known are built, in their order; if only the
/// workspace is built, only its members.
pub proof fn law_names_of_a_phase(
    meta: Metadata,
    ids: Seq<Seq<char>>,
    phase: Seq<usize>,
    workspace_only: bool,
)
    requires
        forall|x: int|
            0 <= x < phase.len() ==> metadata::has_package(
                meta.packages@,
                ids[#[trigger] phase[x] as int],
            ),
    ensures
        builder::phase_names(meta, ids, phase, workspace_only) == phase.filter(
            |x: usize|
                !workspace_only || text::texts(meta.workspace_members@).contains(ids[x as int]),
        ).map_values(
            |x: usize| metadata::package_for(meta.packages@, ids[x as int])->0.name@,
        ),
    decreases phase.len(),
{
    reveal(Seq::filter);
    let kept = |x: usize|
        !workspace_only || text::texts(meta.workspace_members@).contains(ids[x as int]);
    let name = |x: usize| metadata::package_for(meta.packages@, ids[x as int])->0.name@;
    let names = builder::phase_names(meta, ids, phase, workspace_only);
    if phase.len() > 0 {
        let front = phase.drop_last();
        assert forall|x: int| 0 <= x < front.len() implies metadata::has_package(
            meta.packages@,
            ids[#[trigger] front[x] as int],
        ) by {
            assert(front[x] == phase[x]);
        }
        law_names_of_a_phase(meta, ids, front, workspace_only);
        let id = ids[phase[phase.len() - 1] as int];
        assert(metadata::has_package(meta.packages@, id));
        packages::law_packages_are_found_by_id(meta.packages@, id);
        assert(names =~= phase.filter(kept).map_values(name));
    } else {
        assert(names =~= phase.filter(kept).map_values(name));
    }
}

// ---------------------------------------------------------------------------
// Steps of the build by units
// ---------------------------------------------------------------------------

/// A directory is named after its package: every letter, digit and underscore stays, and
/// all else becomes an underscore.
pub proof fn law_sanitizing(name: Seq<char>, i: int)
    requires
        0 <= i < name.len(),
    ensures
        builder_v4::sanitized(name).len() == name.len(),
        ({
            let c = name[i];
            let stays = 'a' <= c <= 'z' || 'A' <= c <= 'Z' || '0' <= c <= '9' || c == '_';
            builder_v4::sanitized(name)[i] == if stays {
                c
            } else {
                '_'
            }
        }),
{
}

/// The hash starts from a fixed number, and takes in byte after byte.
pub proof fn law_hashing(data: Seq<u8>, byte: u8)
    ensures
        builder_v4::fnv(Seq::empty()) == 2166136261,
        builder_v4::fnv(data.push(byte)) == ((builder_v4::fnv(data) ^ (byte as u32)) * 16777619)
            % 4294967296,
{
    assert(data.push(byte).drop_last() =~= data);
    assert(data.push(byte).last() == byte);
}

/// A directory has the sanitized package name, a dash and eight digits that only the
/// package id decides.
pub proof fn law_isolated_directories(a: UnitGraphUnit, b: UnitGraphUnit)
    ensures
        builder_v4::iso_name(a).len() == a.pkg_name@.len() + 9,
        builder_v4::iso_name(a).take(a.pkg_name@.len() as int) == builder_v4::sanitized(
            a.pkg_name@,
        ),
        builder_v4::iso_name(a)[a.pkg_name@.len() as int] == '-',
        builder_v4::iso_name(a).skip(a.pkg_name@.len() as int + 1) == text::low_hex(
            builder_v4::fnv(vstd::utf8::encode_utf8(a.pkg_id@)) as nat,
            8,
        ),
        a.pkg_id@ == b.pkg_id@ && a.pkg_name@ == b.pkg_name@ ==> builder_v4::iso_name(a)
            == builder_v4::iso_name(b),
{
    reveal_strlit("-");
    text::lemma_low_hex_len(builder_v4::id_hash(a) as nat, 8);
    let dir = builder_v4::iso_name(a);
    let n = a.pkg_name@.len() as int;
    assert(builder_v4::sanitized(a.pkg_name@).len() == n);
    assert(dir.take(n) =~= builder_v4::sanitized(a.pkg_name@));
    assert(dir.skip(n + 1) =~= text::low_hex(builder_v4::id_hash(a) as nat, 8));
}

/// A unit of a phase that builds its package.
pub open spec fn is_built_in(units: Seq<UnitGraphUnit>, phase: Seq<usize>, pkg: Seq<char>) -> bool {
    exists|x: int|
        0 <= x < phase.len() && units[#[trigger] phase[x] as int].mode@ == "build"@
            && units[phase[x] as int].pkg_id@ == pkg
}

proof fn lemma_driven_packages(units: Seq<UnitGraphUnit>, phase: Seq<usize>, pkg: Seq<char>)
    ensures
        builder_v4::has_pkg(units, builder_v4::driven(units, phase), pkg) <==> is_built_in(
            units,
            phase,
            pkg,
        ),
    decreases phase.len(),
{
    let now = builder_v4::driven(units, phase);
    if phase.len() > 0 {
        let front = phase.drop_last();
        let before = builder_v4::driven(units, front);
        let last = phase.last();
        lemma_driven_packages(units, front, pkg);
        assert(phase[phase.len() - 1] == last);
        if builder_v4::has_pkg(units, before, pkg) {
            let k = choose|k: int|
                0 <= k < before.len() && units[(#[trigger] before[k]) as int].pkg_id@ == pkg;
            assert(now[k] == before[k]);
        }
        if is_built_in(units, front, pkg) {
            let x = choose|x: int|
                0 <= x < front.len() && units[#[trigger] front[x] as int].mode@ == "build"@
                    && units[front[x] as int].pkg_id@ == pkg;
            assert(phase[x] == front[x]);
        }
        if is_built_in(units, phase, pkg) {
            let x = choose|x: int|
                0 <= x < phase.len() && units[#[trigger] phase[x] as int].mode@ == "build"@
                    && units[phase[x] as int].pkg_id@ == pkg;
            if x < front.len() {
                assert(front[x] == phase[x]);
            } else if !builder_v4::has_pkg(units, before, pkg) {
                assert(now[before.len() as int] == last);
            }
        }
        if builder_v4::has_pkg(units, now, pkg) {
            let k = choose|k: int|
                0 <= k < now.len() && units[(#[trigger] now[k]) as int].pkg_id@ == pkg;
            if k < before.len() {
                assert(before[k] == now[k]);
            }
        }
    }
}

/// Of a phase the first unit that builds a package drives it; units of another mode, and
/// further units of the same package, drive nothing.
pub proof fn law_first_units_drive_their_packages(
    units: Seq<UnitGraphUnit>,
    phase: Seq<usize>,
    x: usize,
)
    ensures
        builder_v4::driven(units, Seq::empty()) == Seq::<usize>::empty(),
        builder_v4::driven(units, phase.push(x)) == if units[x as int].mode@ == "build"@
            && !is_built_in(units, phase, units[x as int].pkg_id@) {
            builder_v4::driven(units, phase).push(x)
        } else {
            builder_v4::driven(units, phase)
        },
{
    lemma_driven_packages(units, phase, units[x as int].pkg_id@);
    assert(phase.push(x).drop_last() =~= phase);
    assert(builder_v4::driven(units, Seq::empty()) =~= Seq::<usize>::empty());
}

/// The builds of all waves, in their order.
pub open spec fn all_builds(steps: Seq<V4View>) -> Seq<IsolatedView>
    decreases steps.len(),
{
    if steps.len() == 0 {
        Seq::empty()
    } else {
        all_builds(steps.drop_last()) + match steps.last() {
            V4View::Wave(builds) => builds,
            _ => Seq::empty(),
        }
    }
}

proof fn lemma_all_builds(a: Seq<V4View>, b: Seq<V4View>)
    ensures
        all_builds(a + b) == all_builds(a) + all_builds(b),
    decreases b.len(),
{
    if b.len() == 0 {
        assert(a + b =~= a);
        assert(all_builds(a + b) =~= all_builds(a) + all_builds(b));
    } else {
        lemma_all_builds(a, b.drop_last());
        assert((a + b).drop_last() =~= a + b.drop_last());
        assert((a + b).last() == b.last());
        assert(all_builds(a + b) =~= all_builds(a) + all_builds(b));
    }
}

proof fn lemma_one_build_step(step: V4View)
    ensures
        all_builds(seq![step]) == match step {
            V4View::Wave(builds) => builds,
            _ => Seq::empty(),
        },
{
    assert(seq![step].drop_last() =~= Seq::<V4View>::empty());
    assert(all_builds(Seq::<V4View>::empty()) =~= Seq::<IsolatedView>::empty());
    assert(all_builds(seq![step]) =~= match step {
        V4View::Wave(builds) => builds,
        _ => Seq::empty(),
    });
}

/// How a package is built alone: by its name and version, in its own directory.
pub open spec fn alone(u: UnitGraphUnit, release: bool) -> IsolatedView {
    IsolatedView {
        spec: builder_v4::spec_of(u),
        args: builder::package_args(builder_v4::spec_of(u), release),
        dir: builder_v4::iso_name(u),
    }
}

proof fn lemma_isolated_waves(
    units: Seq<UnitGraphUnit>,
    pkgs: Seq<usize>,
    release: bool,
    from: nat,
    width: nat,
)
    requires
        width > 0,
        from <= pkgs.len(),
    ensures
        all_builds(
            waves::waves_from(from, pkgs.len(), width).map_values(
                |w: (nat, nat)| builder_v4::wave_step(units, pkgs, release, w),
            ),
        ) == pkgs.skip(from as int).map_values(|x: usize| alone(units[x as int], release)),
    decreases pkgs.len() - from,
{
    let n = pkgs.len();
    let all = waves::waves_from(from, n, width);
    let step = |w: (nat, nat)| builder_v4::wave_step(units, pkgs, release, w);
    let build = |x: usize| alone(units[x as int], release);
    let steps = all.map_values(step);
    if from >= n {
        assert(steps =~= Seq::<V4View>::empty());
        assert(all_builds(steps) =~= pkgs.skip(from as int).map_values(build));
    } else {
        let to = if n - from <= width {
            n
        } else {
            from + width
        };
        let rest = waves::waves_from(to, n, width);
        lemma_isolated_waves(units, pkgs, release, to, width);
        assert(steps =~= seq![step((from, to))] + rest.map_values(step));
        lemma_all_builds(seq![step((from, to))], rest.map_values(step));
        lemma_one_build_step(step((from, to)));
        assert(all_builds(steps) =~= pkgs.skip(from as int).map_values(build));
    }
}

/// A phase that is not batched builds each of its packages once, alone and in its own
/// directory. The directories of all of them are filled first and merged last.
pub proof fn law_isolated_phases_build_their_packages(
    units: Seq<UnitGraphUnit>,
    pkgs: Seq<usize>,
    i: nat,
    config: BuildConfig,
)
    requires
        !config.batched,
        pkgs.len() > 0,
    ensures
        ({
            let steps = builder_v4::phase_steps(units, pkgs, i, config);
            let dirs = pkgs.map_values(|x: usize| builder_v4::iso_name(units[x as int]));
            &&& all_builds(steps) == pkgs.map_values(
                |x: usize| alone(units[x as int], config.release),
            )
            &&& steps.len() >= 5
            &&& steps[0] is Start
            &&& steps[1] == V4View::Seed(dirs)
            &&& forall|k: int| 2 <= k < steps.len() - 2 ==> (#[trigger] steps[k]) is Wave
            &&& steps[steps.len() - 2] == V4View::Merge(dirs)
            &&& steps[steps.len() - 1] is End
        }),
{
    let steps = builder_v4::phase_steps(units, pkgs, i, config);
    let dirs = builder_v4::directories(units, pkgs);
    let build = |x: usize| alone(units[x as int], config.release);
    let start = seq![
        V4View::Start(builder_v4::isolated_line(i, pkgs.len())),
        V4View::Seed(dirs),
    ];
    let middle = builder_v4::wave_steps(units, pkgs, config);
    let end = seq![V4View::Merge(dirs), V4View::End];
    assert(steps =~= start + middle + end);
    lemma_isolated_waves(units, pkgs, config.release, 0, waves::width_of(config.jobs as nat));
    assert(pkgs.skip(0) =~= pkgs);
    lemma_all_builds(start + middle, end);
    lemma_all_builds(start, middle);
    lemma_all_builds(seq![start[0]], seq![start[1]]);
    lemma_all_builds(seq![end[0]], seq![end[1]]);
    assert(start =~= seq![start[0]] + seq![start[1]]);
    assert(end =~= seq![end[0]] + seq![end[1]]);
    lemma_one_build_step(start[0]);
    lemma_one_build_step(start[1]);
    lemma_one_build_step(end[0]);
    lemma_one_build_step(end[1]);
    assert(all_builds(steps) =~= pkgs.map_values(build));
    assert(middle.len() > 0);
}

/// A phase that is batched is one build of all of its packages; a phase without a package
/// does nothing.
pub proof fn law_batched_phases_are_one_build(
    units: Seq<UnitGraphUnit>,
    pkgs: Seq<usize>,
    i: nat,
    config: BuildConfig,
)
    ensures
        pkgs.len() == 0 ==> builder_v4::phase_steps(units, pkgs, i, config).len() == 0,
        config.batched && pkgs.len() > 0 ==> {
            let steps = builder_v4::phase_steps(units, pkgs, i, config);
            &&& steps.len() == 3
            &&& steps[0] is Start
            &&& steps[1] == V4View::Batch(
                builder_v4::batch_args(units, pkgs, config),
                pkgs.len(),
            )
            &&& steps[2] is End
        },
{
}

/// The build goes on phase by phase, and counts what it drives.
pub proof fn law_unit_builds_go_on_by_phase(
    units: Seq<UnitGraphUnit>,
    phases: Seq<Seq<usize>>,
    config: BuildConfig,
    k: nat,
)
    ensures
        builder_v4::steps_upto(units, phases, config, 0).len() == 0,
        builder_v4::steps_upto(units, phases, config, k + 1) == builder_v4::steps_upto(
            units,
            phases,
            config,
            k,
        ) + builder_v4::phase_steps(
            units,
            builder_v4::driven(units, phases[k as int]),
            k,
            config,
        ),
        builder_v4::driven_count(units, phases, 0) == 0,
        builder_v4::driven_count(units, phases, k + 1) == builder_v4::driven_count(
            units,
            phases,
            k,
        ) + builder_v4::driven(units, phases[k as int]).len(),
{
}

// ---------------------------------------------------------------------------
// Programs and files
// ---------------------------------------------------------------------------

/// A program is looked for where the variable says, then beside the running program, then
/// in the two directories of builds, release before debug.
pub proof fn law_places_of_a_program(program: Seq<char>, var: Seq<char>, dir: Seq<char>)
    requires
        texts::is_component(program),
        texts::is_plain_dir(dir),
        dir.len() > 0,
    ensures
        ({
            let beside = dir + seq!['/'] + program;
            let release = "target/release/"@ + program;
            let debug = "target/debug/"@ + program;
            &&& builder_v5::places_of(program, Some(var), Some(dir)) == seq![
                var,
                beside,
                release,
                debug,
            ]
            &&& builder_v5::places_of(program, None, Some(dir)) == seq![beside, release, debug]
            &&& builder_v5::places_of(program, Some(var), None) == seq![var, release, debug]
            &&& builder_v5::places_of(program, None, None) == seq![release, debug]
        }),
{
    reveal_strlit("target/release");
    reveal_strlit("target/release/");
    reveal_strlit("target/debug");
    reveal_strlit("target/debug/");
    let release = "target/release"@;
    let debug = "target/debug"@;
    assert("target/release/"@ =~= release + seq!['/']);
    assert("target/debug/"@ =~= debug + seq!['/']);
    assert(release.last() == 'e' && debug.last() == 'g');
    assert(texts::is_plain_dir(release));
    assert(texts::is_plain_dir(debug));
    texts::law_joined_path(dir, program);
    texts::law_joined_path(release, program);
    texts::law_joined_path(debug, program);
    let beside = dir + seq!['/'] + program;
    let r = "target/release/"@ + program;
    let d = "target/debug/"@ + program;
    assert(builder_v5::places_of(program, Some(var), Some(dir)) =~= seq![var, beside, r, d]);
    assert(builder_v5::places_of(program, None, Some(dir)) =~= seq![beside, r, d]);
    assert(builder_v5::places_of(program, Some(var), None) =~= seq![var, r, d]);
    assert(builder_v5::places_of(program, None, None) =~= seq![r, d]);
}

/// What is found exists, and nothing before it does.
pub proof fn law_first_existing_place(exists_at: Seq<bool>, k: int, j: int)
    requires
        builder_v5::is_first_existing(exists_at, k),
        0 <= j < exists_at.len(),
        exists_at[j],
    ensures
        0 <= k <= j,
        exists_at[k],
{
}

/// The queue file lies in the temporary directory and is named after process and time.
pub proof fn law_queue_names(pid: nat, nanos: nat)
    ensures
        builder_v5::queue_name(pid, nanos) == "/tmp/parallel-rustc-queue-"@ + text::decimal(pid)
            + text::decimal(nanos) + ".jsonl"@,
        paths::name_of(builder_v5::queue_name(pid, nanos)) is Some,
{
    reveal_strlit(".jsonl");
    reveal_strlit("/tmp/parallel-rustc-queue-");
    reveal_strlit("parallel-rustc-queue-");
    let front = "parallel-rustc-queue-"@;
    let file = front + text::decimal(pid) + text::decimal(nanos) + ".jsonl"@;
    let dir = seq!['/', 't', 'm', 'p'];
    assert("/tmp/parallel-rustc-queue-"@ =~= dir + seq!['/'] + front);
    assert(builder_v5::queue_name(pid, nanos) =~= dir + seq!['/'] + file);
    lemma_digits(pid);
    lemma_digits(nanos);
    let a = front.len();
    let b = a + text::decimal(pid).len();
    let c = b + text::decimal(nanos).len();
    assert forall|j: int| 0 <= j < file.len() implies file[j] != '/' by {
        if j < a {
            assert(file[j] == front[j]);
        } else if j < b {
            assert(file[j] == text::decimal(pid)[j - a]);
        } else if j < c {
            assert(file[j] == text::decimal(nanos)[j - b]);
        } else {
            assert(file[j] == ".jsonl"@[j - c]);
        }
    }
    assert(file[0] == 'p');
    assert(dir.last() == 'p');
    texts::law_file_in_directory(dir, file);
}

proof fn lemma_digits(n: nat)
    ensures
        forall|i: int|
            0 <= i < text::decimal(n).len() ==> '0' <= #[trigger] text::decimal(n)[i] <= '9',
    decreases n,
{
    texts::law_decimal(n);
    let all = text::decimal(n);
    assert(all[all.len() - 1] == all.last());
    if n >= 10 {
        lemma_digits(n / 10);
        assert forall|i: int| 0 <= i < all.len() implies '0' <= #[trigger] all[i] <= '9' by {
            if i < all.len() - 1 {
                assert(all.drop_last()[i] == all[i]);
            }
        }
    }
}

/// Trees are filled and merged without replacing anything: directories are gone into,
/// files that are missing are linked, and what is there stays. Links between files are
/// copied when a tree is filled, and left out when it is merged.
pub proof fn law_entries_of_trees(exists: bool)
    ensures
        trees::seed_action_of(EntryKind::Directory, exists) == EntryAction::Descend,
        trees::merge_action_of(EntryKind::Directory, exists) == EntryAction::Descend,
        trees::seed_action_of(EntryKind::File, false) == EntryAction::Link,
        trees::merge_action_of(EntryKind::File, false) == EntryAction::Link,
        trees::seed_action_of(EntryKind::File, true) == EntryAction::Skip,
        trees::merge_action_of(EntryKind::File, true) == EntryAction::Skip,
        trees::seed_action_of(EntryKind::Symlink, false) == EntryAction::CopySymlink,
        trees::seed_action_of(EntryKind::Symlink, true) == EntryAction::Skip,
        trees::merge_action_of(EntryKind::Symlink, exists) == EntryAction::Skip,
        trees::seed_action_of(EntryKind::Other, exists) == EntryAction::Skip,
        trees::merge_action_of(EntryKind::Other, exists) == EntryAction::Skip,
{
}

/// Each strategy has two names, and nothing else names one.
pub proof fn law_names_of_strategies(name: Seq<char>)
    ensures
        cli::strategy_named(name) == Some(Strategy::Cargo) <==> (name == "v1"@ || name
            == "cargo"@),
        cli::strategy_named(name) == Some(Strategy::Wrapper) <==> (name == "v2"@ || name
            == "wrapper"@),
        cli::strategy_named(name) == Some(Strategy::UnitGraph) <==> (name == "v4"@ || name
            == "unit-graph"@),
{
    reveal_strlit("v1");
    reveal_strlit("v2");
    reveal_strlit("v4");
    reveal_strlit("cargo");
    reveal_strlit("wrapper");
    reveal_strlit("unit-graph");
    assert("v1"@[1] == '1');
    assert("v2"@[1] == '2');
    assert("v4"@[1] == '4');
    assert("cargo"@.len() == 5);
    assert("wrapper"@.len() == 7);
    assert("unit-graph"@.len() == 10);
}

/// Every build that is measured starts from a clean tree: by one job, by all of Cargo's
/// jobs, and by phases.
pub proof fn law_measured_builds_are_cold(config: BuildConfig)
    ensures
        ({
            let steps = bench::steps_of(config);
            &&& steps.len() == 9
            &&& steps[2] == bench::StepView::Cargo(bench::workspace_args(config.release, 1))
            &&& steps[5] == bench::StepView::Cargo(
                bench::workspace_args(config.release, config.jobs as nat),
            )
            &&& steps[8] == bench::StepView::Phases
            &&& forall|i: int|
                0 <= i < steps.len() && ((#[trigger] steps[i]) is Cargo || steps[i] is Phases)
                    ==> 0 < i && steps[i - 1] == bench::StepView::Clean(seq!["clean"@])
            &&& forall|i: int|
                0 <= i < steps.len() && (#[trigger] steps[i]) is Clean ==> 0 < i && steps[i
                    - 1] is Say
        }),
{
}

} // verus!
