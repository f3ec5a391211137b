//! The unit-graph driven build.
//!
//! For each phase of the unit graph, one `cargo build -p <pkg>` runs per package,
//! in parallel. Each has its own isolated target directory, seeded with the
//! artifacts that earlier phases produced and merged back when the phase is done,
//! so that no two concurrent cargo processes share a target directory.

use vstd::prelude::*;
use vstd::hash_set::StringHashSet;
use vstd::string::StringExecFns;
use crate::builder::BuildConfig;
use crate::unit_graph::UnitGraphUnit;
use crate::{builder, cli, layers, text, unit_graph, waves};

verus! {

/// What a finished build reports.
#[derive(Debug)]
pub struct BuildV4Summary {
    /// Total wall-clock from the first line of output to the last.
    pub total: std::time::Duration,
    /// Number of phases.
    pub phases: usize,
    /// Widest phase: most packages compiled in parallel in any one phase.
    pub max_phase_width: usize,
    /// Total unit-graph units (all modes).
    pub units: usize,
    /// Packages that were driven with `cargo build -p`.
    pub driven_units: usize,
    /// Wall-clock inside the compile-phase loop only.
    pub compile: std::time::Duration,
}

impl Clone for BuildV4Summary {
    fn clone(&self) -> (r: Self)
        ensures
            r == *self,
    {
        BuildV4Summary {
            total: self.total,
            phases: self.phases,
            max_phase_width: self.max_phase_width,
            units: self.units,
            driven_units: self.driven_units,
            compile: self.compile,
        }
    }
}

// ---------------------------------------------------------------------------
// Names
// ---------------------------------------------------------------------------

pub open spec fn spec_of(u: UnitGraphUnit) -> Seq<char> {
    match u.pkg_version {
        Some(v) => u.pkg_name@ + "@"@ + v@,
        None => u.pkg_name@,
    }
}

/// Package spec for `cargo -p`, with the version to tell apart several versions of
/// the same crate.
pub fn pkg_spec(u: &UnitGraphUnit) -> (r: String)
    ensures
        r@ == spec_of(*u),
{
    let mut r = u.pkg_name.as_str().to_owned();
    match &u.pkg_version {
        Some(v) => {
            r.append("@");
            r.append(v.as_str());
        },
        None => {},
    }
    r
}

/// An ASCII letter, a digit or an underscore.
pub open spec fn is_word_char(c: char) -> bool {
    ||| 'a' <= c <= 'z'
    ||| 'A' <= c <= 'Z'
    ||| '0' <= c <= '9'
    ||| c == '_'
}

/// The name with every other character replaced by an underscore.
pub open spec fn sanitized(name: Seq<char>) -> Seq<char> {
    name.map_values(|c: char| if is_word_char(c) { c } else { '_' })
}

/// Replaces what is no ASCII letter, digit or underscore by an underscore.
pub fn sanitize(name: &str) -> (r: String)
    ensures
        r@ == sanitized(name@),
{
    let cs = text::chars_of(name);
    let mut r = String::new();
    let mut i: usize = 0;
    assert(r@ =~= sanitized(name@.take(0)));
    while i < cs.len()
        invariant
            i <= cs@.len(),
            cs@ == name@,
            r@ == sanitized(name@.take(i as int)),
        decreases cs@.len() - i,
    {
        let c = cs[i];
        let ghost before = r@;
        if ('a' <= c && c <= 'z') || ('A' <= c && c <= 'Z') || ('0' <= c && c <= '9') || c == '_' {
            r.push(c);
        } else {
            r.push('_');
        }
        assert(r@ =~= sanitized(name@.take(i + 1)));
        i += 1;
    }
    assert(name@.take(i as int) =~= name@);
    r
}

/// The 32-bit FNV-1a hash.
pub open spec fn fnv(data: Seq<u8>) -> u32
    decreases data.len(),
{
    if data.len() == 0 {
        0x811c9dc5
    } else {
        let h = fnv(data.drop_last()) ^ (data.last() as u32);
        ((h * 0x01000193) % 0x1_0000_0000) as u32
    }
}

/// The 32-bit FNV-1a hash.
pub fn fnv32(data: &[u8]) -> (r: u32)
    ensures
        r == fnv(data@),
{
    let mut h: u32 = 0x811c9dc5;
    let mut i: usize = 0;
    while i < data.len()
        invariant
            i <= data@.len(),
            h == fnv(data@.take(i as int)),
        decreases data@.len() - i,
    {
        assert(data@.take(i + 1).drop_last() =~= data@.take(i as int));
        h = h ^ (data[i] as u32);
        h = h.wrapping_mul(0x01000193);
        i += 1;
    }
    assert(data@.take(i as int) =~= data@);
    h
}

/// The hash that tells the directories of packages of the same name apart.
pub open spec fn id_hash(u: UnitGraphUnit) -> u32 {
    fnv(vstd::utf8::encode_utf8(u.pkg_id@))
}

pub open spec fn iso_name(u: UnitGraphUnit) -> Seq<char> {
    sanitized(u.pkg_name@) + "-"@ + text::low_hex(id_hash(u) as nat, 8)
}

/// Stable, short name of a package's isolated target directory.
pub fn iso_path(unit: &UnitGraphUnit) -> (r: String)
    ensures
        r@ == iso_name(*unit),
{
    let key = fnv32(unit.pkg_id.as_str().as_bytes());
    let mut r = sanitize(unit.pkg_name.as_str());
    r.append("-");
    r.append(text::hex8_text(key).as_str());
    r
}

/// Two packages have the same isolated directory only if their ids have the same hash
/// and their names read the same in a directory name.
pub proof fn law_isolated_directories_differ(a: UnitGraphUnit, b: UnitGraphUnit)
    ensures
        iso_name(a) == iso_name(b) <==> id_hash(a) == id_hash(b) && sanitized(a.pkg_name@)
            == sanitized(b.pkg_name@),
{
    let x = text::low_hex(id_hash(a) as nat, 8);
    let y = text::low_hex(id_hash(b) as nat, 8);
    text::lemma_low_hex_len(id_hash(a) as nat, 8);
    text::lemma_low_hex_len(id_hash(b) as nat, 8);
    if iso_name(a) == iso_name(b) {
        let n = sanitized(a.pkg_name@).len() as int;
        reveal_strlit("-");
        assert(iso_name(a).len() == n + 1 + 8);
        assert(iso_name(b).len() == sanitized(b.pkg_name@).len() + 1 + 8);
        assert(iso_name(a).take(n) =~= sanitized(a.pkg_name@));
        assert(iso_name(b).take(n) =~= sanitized(b.pkg_name@));
        assert(iso_name(a).skip(n + 1) =~= x);
        assert(iso_name(b).skip(n + 1) =~= y);
        text::lemma_hex8_tells_apart(id_hash(a), id_hash(b));
    }
}

// ---------------------------------------------------------------------------
// Packages to drive
// ---------------------------------------------------------------------------

/// One of the listed units belongs to this package.
pub open spec fn has_pkg(units: Seq<UnitGraphUnit>, listed: Seq<usize>, pkg_id: Seq<char>) -> bool {
    exists|k: int| 0 <= k < listed.len() && units[(#[trigger] listed[k]) as int].pkg_id@ == pkg_id
}

/// The units that stand for the packages of a phase: of the units that compile, the
/// first of each package. Build-script runs are handled by the cargo process that
/// owns their package.
pub open spec fn driven(units: Seq<UnitGraphUnit>, phase: Seq<usize>) -> Seq<usize>
    decreases phase.len(),
{
    if phase.len() == 0 {
        Seq::empty()
    } else {
        let earlier = driven(units, phase.drop_last());
        let u = units[phase.last() as int];
        if u.mode@ == "build"@ && !has_pkg(units, earlier, u.pkg_id@) {
            earlier.push(phase.last())
        } else {
            earlier
        }
    }
}

/// Picks the units that stand for the packages of a phase.
pub fn packages_to_drive(units: &[UnitGraphUnit], phase: &Vec<usize>) -> (r: Vec<usize>)
    requires
        forall|x: int| 0 <= x < phase@.len() ==> #[trigger] phase@[x] < units@.len(),
    ensures
        r@ == driven(units@, phase@),
        r@.len() <= phase@.len(),
        forall|x: int| 0 <= x < r@.len() ==> #[trigger] r@[x] < units@.len(),
{
    let mut seen: StringHashSet = StringHashSet::new();
    let mut r: Vec<usize> = Vec::new();
    let mut x: usize = 0;
    assert(r@ =~= driven(units@, phase@.take(0)));
    while x < phase.len()
        invariant
            x <= phase@.len(),
            forall|y: int| 0 <= y < phase@.len() ==> #[trigger] phase@[y] < units@.len(),
            r@ == driven(units@, phase@.take(x as int)),
            r@.len() <= x,
            forall|y: int| 0 <= y < r@.len() ==> #[trigger] r@[y] < units@.len(),
            forall|id: Seq<char>| #[trigger] seen@.contains(id) <==> has_pkg(units@, r@, id),
        decreases phase@.len() - x,
    {
        let idx: usize = phase[x];
        let u = &units[idx];
        let ghost before = r@;
        let ghost seen0 = seen@;
        proof {
            let upto = phase@.take(x + 1);
            assert(upto.drop_last() =~= phase@.take(x as int));
            assert(upto.last() == idx);
        }
        if text::same(u.mode.as_str(), "build") {
            if seen.insert(u.pkg_id.as_str().to_owned()) {
                r.push(idx);
            }
            proof {
                assert forall|id: Seq<char>| #[trigger] seen@.contains(id) <==> has_pkg(
                    units@,
                    r@,
                    id,
                ) by {
                    assert(seen0.contains(id) <==> has_pkg(units@, before, id));
                    if has_pkg(units@, before, id) {
                        let k = choose|k: int|
                            0 <= k < before.len() && units@[(#[trigger] before[k]) as int].pkg_id@
                                == id;
                        assert(r@[k] == before[k]);
                    }
                    if r@.len() > before.len() && id == u.pkg_id@ {
                        assert(r@[before.len() as int] == idx);
                    }
                    if has_pkg(units@, r@, id) && !has_pkg(units@, before, id) {
                        let k = choose|k: int|
                            0 <= k < r@.len() && units@[(#[trigger] r@[k]) as int].pkg_id@ == id;
                        if k < before.len() {
                            assert(before[k] == r@[k]);
                        }
                    }
                }
            }
        }
        x += 1;
    }
    assert(phase@.take(x as int) =~= phase@);
    r
}

/// No two units that stand for packages of a phase belong to the same package.
pub proof fn law_each_package_is_driven_once(
    units: Seq<UnitGraphUnit>,
    phase: Seq<usize>,
    i: int,
    j: int,
)
    requires
        0 <= i < j < driven(units, phase).len(),
    ensures
        units[driven(units, phase)[i] as int].pkg_id@ != units[driven(
            units,
            phase,
        )[j] as int].pkg_id@,
    decreases phase.len(),
{
    let earlier = driven(units, phase.drop_last());
    if j < earlier.len() {
        law_each_package_is_driven_once(units, phase.drop_last(), i, j);
    } else {
        assert(!has_pkg(units, earlier, units[phase.last() as int].pkg_id@));
        assert(driven(units, phase)[i] == earlier[i]);
    }
}

/// Every package that compiles something in a phase is driven in it.
pub proof fn law_every_compiled_package_is_driven(
    units: Seq<UnitGraphUnit>,
    phase: Seq<usize>,
    x: int,
)
    requires
        0 <= x < phase.len(),
        units[phase[x] as int].mode@ == "build"@,
    ensures
        has_pkg(units, driven(units, phase), units[phase[x] as int].pkg_id@),
    decreases phase.len(),
{
    let front = phase.drop_last();
    let earlier = driven(units, front);
    let all = driven(units, phase);
    let id = units[phase[x] as int].pkg_id@;
    if x < front.len() {
        law_every_compiled_package_is_driven(units, front, x);
    }
    if has_pkg(units, earlier, id) {
        let k = choose|k: int|
            0 <= k < earlier.len() && units[(#[trigger] earlier[k]) as int].pkg_id@ == id;
        assert(all[k] == earlier[k]);
    } else {
        assert(all[earlier.len() as int] == phase[x]);
    }
}

// ---------------------------------------------------------------------------
// Steps
// ---------------------------------------------------------------------------

/// A cargo process with its own target directory.
pub struct IsolatedBuild {
    /// The package spec, for messages.
    pub spec: String,
    /// The arguments of cargo.
    pub args: Vec<String>,
    /// The name of the target directory.
    pub dir: String,
}

/// A step of a build. The steps are taken in order, up to the first that fails.
pub enum V4Step {
    /// Print this line and start the clock.
    Start(String),
    /// Link the merged artifacts into these target directories.
    Seed(Vec<String>),
    /// Run these cargo processes at the same time, and wait for all of them.
    Wave(Vec<IsolatedBuild>),
    /// Run cargo once with these arguments, for so many packages.
    Batch(Vec<String>, usize),
    /// Link the new artifacts of these target directories into the merged one.
    Merge(Vec<String>),
    /// Print how long it took since the last start.
    End,
}

/// What an [`IsolatedBuild`] holds.
#[verifier::ext_equal]
pub ghost struct IsolatedView {
    pub spec: Seq<char>,
    pub args: Seq<Seq<char>>,
    pub dir: Seq<char>,
}

impl View for IsolatedBuild {
    type V = IsolatedView;

    open spec fn view(&self) -> IsolatedView {
        IsolatedView { spec: self.spec@, args: text::texts(self.args@), dir: self.dir@ }
    }
}

/// What a [`V4Step`] holds.
#[verifier::ext_equal]
pub ghost enum V4View {
    Start(Seq<char>),
    Seed(Seq<Seq<char>>),
    Wave(Seq<IsolatedView>),
    Batch(Seq<Seq<char>>, nat),
    Merge(Seq<Seq<char>>),
    End,
}

impl View for V4Step {
    type V = V4View;

    open spec fn view(&self) -> V4View {
        match *self {
            V4Step::Start(line) => V4View::Start(line@),
            V4Step::Seed(dirs) => V4View::Seed(text::texts(dirs@)),
            V4Step::Wave(builds) => V4View::Wave(builds@.map_values(|b: IsolatedBuild| b@)),
            V4Step::Batch(args, n) => V4View::Batch(text::texts(args@), n as nat),
            V4Step::Merge(dirs) => V4View::Merge(text::texts(dirs@)),
            V4Step::End => V4View::End,
        }
    }
}

/// What the steps of a vector hold.
pub open spec fn step_views(v: Seq<V4Step>) -> Seq<V4View> {
    v.map_values(|s: V4Step| s@)
}

/// The cargo process of a package.
pub open spec fn isolated(u: UnitGraphUnit, release: bool) -> IsolatedView {
    IsolatedView {
        spec: spec_of(u),
        args: builder::package_args(spec_of(u), release),
        dir: iso_name(u),
    }
}

/// The target directories of the packages.
pub open spec fn directories(units: Seq<UnitGraphUnit>, pkgs: Seq<usize>) -> Seq<Seq<char>> {
    pkgs.map_values(|x: usize| iso_name(units[x as int]))
}

/// One wave of packages.
pub open spec fn wave_step(
    units: Seq<UnitGraphUnit>,
    pkgs: Seq<usize>,
    release: bool,
    w: (nat, nat),
) -> V4View {
    V4View::Wave(
        pkgs.subrange(w.0 as int, w.1 as int).map_values(
            |x: usize| isolated(units[x as int], release),
        ),
    )
}

pub open spec fn isolated_line(i: nat, count: nat) -> Seq<char> {
    "  phase "@ + text::decimal(i) + " ("@ + text::decimal(count) + " pkg"@ + (if count == 1 {
        ""@
    } else {
        "s"@
    }) + ")…"@
}

/// The waves of packages.
pub open spec fn wave_steps(
    units: Seq<UnitGraphUnit>,
    pkgs: Seq<usize>,
    config: BuildConfig,
) -> Seq<V4View> {
    waves::waves_from(0, pkgs.len(), waves::width_of(config.jobs as nat)).map_values(
        |w: (nat, nat)| wave_step(units, pkgs, config.release, w),
    )
}

/// The steps of a phase whose packages build in isolation: all directories are
/// seeded before the first process starts, and merged after the last has ended.
pub open spec fn isolated_steps(
    units: Seq<UnitGraphUnit>,
    pkgs: Seq<usize>,
    i: nat,
    config: BuildConfig,
) -> Seq<V4View> {
    seq![
        V4View::Start(isolated_line(i, pkgs.len())),
        V4View::Seed(directories(units, pkgs)),
    ] + wave_steps(units, pkgs, config) + seq![
        V4View::Merge(directories(units, pkgs)),
        V4View::End,
    ]
}

/// `-p` and the spec, for each package.
pub open spec fn spec_args(units: Seq<UnitGraphUnit>, pkgs: Seq<usize>) -> Seq<Seq<char>>
    decreases pkgs.len(),
{
    if pkgs.len() == 0 {
        Seq::empty()
    } else {
        spec_args(units, pkgs.drop_last()) + seq!["-p"@, spec_of(units[pkgs.last() as int])]
    }
}

/// The arguments that make cargo build all packages of a phase.
pub open spec fn batch_args(
    units: Seq<UnitGraphUnit>,
    pkgs: Seq<usize>,
    config: BuildConfig,
) -> Seq<Seq<char>> {
    seq!["build"@] + spec_args(units, pkgs) + (if config.release {
        seq!["--release"@]
    } else {
        Seq::empty()
    }) + seq!["-j"@, text::decimal(config.jobs as nat)]
}

pub open spec fn batch_line(i: nat, count: nat, jobs: nat) -> Seq<char> {
    "  phase "@ + text::decimal(i) + " batched: "@ + text::decimal(count) + " pkgs, -j"@
        + text::decimal(jobs)
}

/// The steps of a phase whose packages build in one cargo process.
pub open spec fn batch_steps(
    units: Seq<UnitGraphUnit>,
    pkgs: Seq<usize>,
    i: nat,
    config: BuildConfig,
) -> Seq<V4View> {
    seq![
        V4View::Start(batch_line(i, pkgs.len(), config.jobs as nat)),
        V4View::Batch(batch_args(units, pkgs, config), pkgs.len()),
        V4View::End,
    ]
}

/// The steps of phase `i`. A phase that compiles nothing has none.
pub open spec fn phase_steps(
    units: Seq<UnitGraphUnit>,
    pkgs: Seq<usize>,
    i: nat,
    config: BuildConfig,
) -> Seq<V4View> {
    if pkgs.len() == 0 {
        Seq::empty()
    } else if config.batched {
        batch_steps(units, pkgs, i, config)
    } else {
        isolated_steps(units, pkgs, i, config)
    }
}

/// The steps of the first `k` phases.
pub open spec fn steps_upto(
    units: Seq<UnitGraphUnit>,
    phases: Seq<Seq<usize>>,
    config: BuildConfig,
    k: nat,
) -> Seq<V4View>
    decreases k,
{
    if k == 0 {
        Seq::empty()
    } else {
        steps_upto(units, phases, config, (k - 1) as nat) + phase_steps(
            units,
            driven(units, phases[k - 1]),
            (k - 1) as nat,
            config,
        )
    }
}

/// The units that stand for the packages of each phase.
pub open spec fn driven_phases(units: Seq<UnitGraphUnit>, phases: Seq<Seq<usize>>) -> Seq<
    Seq<usize>,
> {
    phases.map_values(|phase: Seq<usize>| driven(units, phase))
}

/// How many packages the first `k` phases drive.
pub open spec fn driven_count(units: Seq<UnitGraphUnit>, phases: Seq<Seq<usize>>, k: nat) -> nat
    decreases k,
{
    if k == 0 {
        0
    } else {
        driven_count(units, phases, (k - 1) as nat) + driven(units, phases[k - 1]).len()
    }
}

/// The target directories of the packages.
fn directory_names(units: &[UnitGraphUnit], pkgs: &Vec<usize>) -> (r: Vec<String>)
    requires
        forall|x: int| 0 <= x < pkgs@.len() ==> #[trigger] pkgs@[x] < units@.len(),
    ensures
        text::texts(r@) == directories(units@, pkgs@),
{
    let mut r: Vec<String> = Vec::new();
    let mut x: usize = 0;
    while x < pkgs.len()
        invariant
            x <= pkgs@.len(),
            forall|y: int| 0 <= y < pkgs@.len() ==> #[trigger] pkgs@[y] < units@.len(),
            r@.len() == x,
            forall|y: int|
                0 <= y < x ==> (#[trigger] r@[y])@ == iso_name(units@[pkgs@[y] as int]),
        decreases pkgs@.len() - x,
    {
        r.push(iso_path(&units[pkgs[x]]));
        x += 1;
    }
    assert(text::texts(r@) =~= directories(units@, pkgs@));
    r
}

/// Appends the steps of a phase whose packages build in isolation.
fn push_isolated_steps(
    units: &[UnitGraphUnit],
    pkgs: &Vec<usize>,
    i: usize,
    config: &BuildConfig,
    steps: &mut Vec<V4Step>,
)
    requires
        forall|x: int| 0 <= x < pkgs@.len() ==> #[trigger] pkgs@[x] < units@.len(),
    ensures
        step_views(final(steps)@) == step_views(old(steps)@) + isolated_steps(
            units@,
            pkgs@,
            i as nat,
            *config,
        ),
{
    let ghost start = step_views(steps@);
    let ghost dirs = directories(units@, pkgs@);
    let mut line = "  phase ".to_owned();
    line.append(text::decimal_text(i).as_str());
    line.append(" (");
    line.append(text::decimal_text(pkgs.len()).as_str());
    line.append(" pkg");
    if pkgs.len() == 1 {
        line.append("");
    } else {
        line.append("s");
    }
    line.append(")…");
    steps.push(V4Step::Start(line));
    steps.push(V4Step::Seed(directory_names(units, pkgs)));
    let ghost head = start + seq![
        V4View::Start(isolated_line(i as nat, pkgs@.len())),
        V4View::Seed(dirs),
    ];
    assert(step_views(steps@) =~= head);
    let ranges = waves::waves(pkgs.len(), config.jobs);
    let ghost all = wave_steps(units@, pkgs@, *config);
    let ghost wv = waves::bounds(ranges@);
    let mut w: usize = 0;
    assert(head + all.take(0) =~= head);
    while w < ranges.len()
        invariant
            w <= ranges@.len(),
            wv == waves::bounds(ranges@),
            wv == waves::waves_from(0, pkgs@.len(), waves::width_of(config.jobs as nat)),
            all == wave_steps(units@, pkgs@, *config),
            forall|x: int| 0 <= x < pkgs@.len() ==> #[trigger] pkgs@[x] < units@.len(),
            forall|x: int|
                0 <= x < ranges@.len() ==> (#[trigger] ranges@[x]).0 < ranges@[x].1 <= pkgs@.len(),
            step_views(steps@) == head + all.take(w as int),
        decreases ranges@.len() - w,
    {
        let (from, to) = ranges[w];
        let ghost before = step_views(steps@);
        let mut builds: Vec<IsolatedBuild> = Vec::new();
        let mut x: usize = from;
        while x < to
            invariant
                from <= x <= to <= pkgs@.len(),
                forall|x: int| 0 <= x < pkgs@.len() ==> #[trigger] pkgs@[x] < units@.len(),
                builds@.len() == x - from,
                forall|y: int|
                    0 <= y < builds@.len() ==> (#[trigger] builds@[y])@ == isolated(
                        units@[pkgs@[from + y] as int],
                        config.release,
                    ),
            decreases to - x,
        {
            let u = &units[pkgs[x]];
            let spec = pkg_spec(u);
            let args = builder::cargo_build_args(spec.as_str(), config.release);
            builds.push(IsolatedBuild { spec, args, dir: iso_path(u) });
            x += 1;
        }
        proof {
            assert(wv[w as int] == (from as nat, to as nat));
            let views = pkgs@.subrange(from as int, to as int).map_values(
                |x: usize| isolated(units@[x as int], config.release),
            );
            assert(builds@.map_values(|b: IsolatedBuild| b@) =~= views);
            assert(all[w as int] == wave_step(units@, pkgs@, config.release, wv[w as int]));
        }
        steps.push(V4Step::Wave(builds));
        proof {
            assert(step_views(steps@) =~= before.push(all[w as int]));
            assert(all.take(w + 1) =~= all.take(w as int).push(all[w as int]));
            assert(step_views(steps@) =~= head + all.take(w + 1));
        }
        w += 1;
    }
    assert(all.take(w as int) =~= all);
    let ghost before = step_views(steps@);
    steps.push(V4Step::Merge(directory_names(units, pkgs)));
    steps.push(V4Step::End);
    proof {
        assert(step_views(steps@) =~= before + seq![V4View::Merge(dirs), V4View::End]);
        assert(step_views(steps@) =~= start + isolated_steps(units@, pkgs@, i as nat, *config));
    }
}

/// Appends the steps of a phase whose packages build in one cargo process.
fn push_batch_steps(
    units: &[UnitGraphUnit],
    pkgs: &Vec<usize>,
    i: usize,
    config: &BuildConfig,
    steps: &mut Vec<V4Step>,
)
    requires
        forall|x: int| 0 <= x < pkgs@.len() ==> #[trigger] pkgs@[x] < units@.len(),
    ensures
        step_views(final(steps)@) == step_views(old(steps)@) + batch_steps(
            units@,
            pkgs@,
            i as nat,
            *config,
        ),
{
    let ghost start = step_views(steps@);
    let mut line = "  phase ".to_owned();
    line.append(text::decimal_text(i).as_str());
    line.append(" batched: ");
    line.append(text::decimal_text(pkgs.len()).as_str());
    line.append(" pkgs, -j");
    line.append(text::decimal_text(config.jobs).as_str());
    let mut args: Vec<String> = Vec::new();
    args.push("build".to_owned());
    let mut x: usize = 0;
    assert(text::texts(args@) =~= seq!["build"@] + spec_args(units@, pkgs@.take(0)));
    while x < pkgs.len()
        invariant
            x <= pkgs@.len(),
            forall|y: int| 0 <= y < pkgs@.len() ==> #[trigger] pkgs@[y] < units@.len(),
            text::texts(args@) == seq!["build"@] + spec_args(units@, pkgs@.take(x as int)),
        decreases pkgs@.len() - x,
    {
        let u = &units[pkgs[x]];
        let ghost before = text::texts(args@);
        args.push("-p".to_owned());
        args.push(pkg_spec(u));
        proof {
            let upto = pkgs@.take(x + 1);
            assert(upto.drop_last() =~= pkgs@.take(x as int));
            assert(upto.last() == pkgs@[x as int]);
            assert(text::texts(args@) =~= before + seq!["-p"@, spec_of(*u)]);
            assert(text::texts(args@) =~= seq!["build"@] + spec_args(units@, upto));
        }
        x += 1;
    }
    assert(pkgs@.take(x as int) =~= pkgs@);
    if config.release {
        args.push("--release".to_owned());
    }
    args.push("-j".to_owned());
    args.push(text::decimal_text(config.jobs));
    assert(text::texts(args@) =~= batch_args(units@, pkgs@, *config));
    steps.push(V4Step::Start(line));
    steps.push(V4Step::Batch(args, pkgs.len()));
    steps.push(V4Step::End);
    assert(step_views(steps@) =~= start + batch_steps(units@, pkgs@, i as nat, *config));
}

/// What a build is going to do.
pub struct V4Plan {
    pub steps: Vec<V4Step>,
    /// Number of phases.
    pub phases: usize,
    /// Most units in any one phase.
    pub max_width: usize,
    /// Most packages driven in any one phase.
    pub max_phase_width: usize,
    /// Number of units.
    pub units: usize,
    /// Packages that are driven.
    pub driven_units: usize,
    /// The arguments of one last cargo process that links what is left.
    pub final_args: Option<Vec<String>>,
}

/// The arguments of the last cargo process. Where each phase builds in one process,
/// there is nothing left to link.
pub open spec fn last_args(config: BuildConfig) -> Option<Seq<Seq<char>>> {
    if config.batched {
        None
    } else if config.release {
        Some(seq!["build"@, "--release"@])
    } else {
        Some(seq!["build"@])
    }
}

pub open spec fn optional_texts(v: Option<Vec<String>>) -> Option<Seq<Seq<char>>> {
    match v {
        Some(v) => Some(text::texts(v@)),
        None => None,
    }
}

/// `p` is the plan for these units and phases.
pub open spec fn is_plan(
    units: Seq<UnitGraphUnit>,
    phases: Seq<Seq<usize>>,
    config: BuildConfig,
    p: V4Plan,
) -> bool {
    &&& step_views(p.steps@) == steps_upto(units, phases, config, phases.len())
    &&& p.phases == phases.len()
    &&& builder::is_max_width(phases, p.max_width as nat)
    &&& builder::is_max_width(driven_phases(units, phases), p.max_phase_width as nat)
    &&& p.units == units.len()
    &&& p.driven_units == driven_count(units, phases, phases.len())
    &&& optional_texts(p.final_args) == last_args(config)
}

/// Plans the build of these units in these phases.
fn plan_phases(units: &[UnitGraphUnit], phases: &[Vec<usize>], config: &BuildConfig) -> (p: V4Plan)
    requires
        unit_graph::phases_in_range(units@, phases@),
        layers::total_len(layers::lists(phases@)) <= usize::MAX,
    ensures
        is_plan(units@, layers::lists(phases@), *config, p),
{
    let ghost all = layers::lists(phases@);
    let mut steps: Vec<V4Step> = Vec::new();
    let mut driven_units: usize = 0;
    let mut packages: Vec<Vec<usize>> = Vec::new();
    let mut p: usize = 0;
    assert(step_views(steps@) =~= Seq::<V4View>::empty());
    while p < phases.len()
        invariant
            p <= phases@.len(),
            all == layers::lists(phases@),
            packages@.len() == p,
            forall|q: int| 0 <= q < p ==> (#[trigger] packages@[q])@ == driven(units@, all[q]),
            unit_graph::phases_in_range(units@, phases@),
            layers::total_len(all) <= usize::MAX,
            step_views(steps@) == steps_upto(units@, all, *config, p as nat),
            driven_units == driven_count(units@, all, p as nat),
            driven_units <= layers::total_len(all.take(p as int)),
        decreases phases@.len() - p,
    {
        assert forall|x: int|
            0 <= x < phases@[p as int]@.len() implies #[trigger] phases@[p as int]@[x]
            < units@.len() by {}
        let pkgs = packages_to_drive(units, &phases[p]);
        let ghost before = step_views(steps@);
        proof {
            assert(all.take(p + 1).drop_last() =~= all.take(p as int));
            assert(all.take(p + 1).last() == phases@[p as int]@);
            layers::lemma_total_len_take(all, p + 1);
            assert(before =~= before + Seq::<V4View>::empty());
        }
        if pkgs.len() > 0 {
            if config.batched {
                push_batch_steps(units, &pkgs, p, config, &mut steps);
            } else {
                push_isolated_steps(units, &pkgs, p, config, &mut steps);
            }
        }
        driven_units = driven_units + pkgs.len();
        packages.push(pkgs);
        p += 1;
    }
    assert(layers::lists(packages@) =~= driven_phases(units@, all));
    let final_args = if config.batched {
        None
    } else {
        let mut args: Vec<String> = Vec::new();
        args.push("build".to_owned());
        if config.release {
            args.push("--release".to_owned());
            assert(text::texts(args@) =~= seq!["build"@, "--release"@]);
        } else {
            assert(text::texts(args@) =~= seq!["build"@]);
        }
        Some(args)
    };
    V4Plan {
        steps,
        phases: phases.len(),
        max_width: builder::max_width(phases),
        max_phase_width: builder::max_width(packages.as_slice()),
        units: units.len(),
        driven_units,
        final_args,
    }
}

/// Plans a build of the unit graph that cargo gave.
pub fn plan_build(fetched: Result<Vec<UnitGraphUnit>, String>, config: &BuildConfig) -> (r: Result<
    V4Plan,
    String,
>)
    ensures
        match (fetched, r) {
            (Err(e), Err(m)) => m@ == "unit-graph"@ + ": "@ + e@,
            (Ok(units), Ok(p)) => {
                &&& !unit_graph::has_dangling(units@)
                &&& !layers::has_cycle(unit_graph::unit_deps(units@))
                &&& exists|ph: Seq<Seq<usize>>| #[trigger]
                    cli::are_unit_phases(units@, ph) && is_plan(units@, ph, *config, p)
            },
            (Ok(units), Err(m)) => cli::unit_phases_error(units@, m@),
            _ => false,
        },
{
    let units = match fetched {
        Ok(units) => units,
        Err(e) => {
            return Err(text::failure("unit-graph", e.as_str()));
        },
    };
    match unit_graph::assign_phases(units.as_slice()) {
        Ok(ph) => {
            let n: usize = units.len();
            proof {
                let pv = layers::lists(ph@);
                let deps = unit_graph::unit_deps(units@);
                assert(cli::are_unit_phases(units@, pv));
                layers::lemma_layering_total(deps, pv);
                layers::lemma_layering_lists_once(deps, pv);
                assert forall|p: int, x: int|
                    0 <= p < ph@.len() && 0 <= x < ph@[p]@.len() implies #[trigger] ph@[p]@[x]
                    < units@.len() by {
                    assert(pv[p].contains(ph@[p]@[x]));
                }
            }
            Ok(plan_phases(units.as_slice(), ph.as_slice(), config))
        },
        Err(e) => Err(text::failure("phase computation", e.as_str())),
    }
}

/// What a build that followed its plan reports.
pub fn summarize(
    plan: &V4Plan,
    total: std::time::Duration,
    compile: std::time::Duration,
) -> (r: BuildV4Summary)
    ensures
        r.total == total,
        r.compile == compile,
        r.phases == plan.phases,
        r.max_phase_width == plan.max_phase_width,
        r.units == plan.units,
        r.driven_units == plan.driven_units,
{
    BuildV4Summary {
        total,
        phases: plan.phases,
        max_phase_width: plan.max_phase_width,
        units: plan.units,
        driven_units: plan.driven_units,
        compile,
    }
}

/// The steps of earlier phases are all taken before those of later ones: no package
/// builds before the artifacts of earlier phases are merged.
pub proof fn law_phases_run_one_after_another(
    units: Seq<UnitGraphUnit>,
    phases: Seq<Seq<usize>>,
    config: BuildConfig,
    j: nat,
    k: nat,
)
    requires
        j <= k,
    ensures
        steps_upto(units, phases, config, j).is_prefix_of(steps_upto(units, phases, config, k)),
    decreases k,
{
    let all = steps_upto(units, phases, config, k);
    if j < k {
        law_phases_run_one_after_another(units, phases, config, j, (k - 1) as nat);
        let some = steps_upto(units, phases, config, j);
        let most = steps_upto(units, phases, config, (k - 1) as nat);
        assert forall|i: int| 0 <= i < some.len() implies some[i] == all[i] by {
            assert(some[i] == most[i]);
        }
        assert(some =~= all.subrange(0, some.len() as int));
    } else {
        assert(all =~= all.subrange(0, all.len() as int));
    }
}

/// No wave runs more cargo processes at once than allowed.
pub proof fn law_no_wave_is_too_wide(
    units: Seq<UnitGraphUnit>,
    pkgs: Seq<usize>,
    config: BuildConfig,
    w: int,
)
    requires
        0 <= w < wave_steps(units, pkgs, config).len(),
    ensures
        wave_steps(units, pkgs, config)[w] is Wave,
        0 < wave_steps(units, pkgs, config)[w]->Wave_0.len() <= waves::width_of(
            config.jobs as nat,
        ),
{
    waves::law_no_wave_is_too_wide(0, pkgs.len(), waves::width_of(config.jobs as nat), w);
}

/// Every cargo process of a phase has a target directory that was seeded before the
/// first of them started, and that is merged after the last has ended.
pub proof fn law_every_build_has_a_seeded_directory(
    units: Seq<UnitGraphUnit>,
    pkgs: Seq<usize>,
    i: nat,
    config: BuildConfig,
    k: int,
    y: int,
)
    requires
        0 <= k < isolated_steps(units, pkgs, i, config).len(),
        isolated_steps(units, pkgs, i, config)[k] is Wave,
        0 <= y < isolated_steps(units, pkgs, i, config)[k]->Wave_0.len(),
    ensures
        ({
            let steps = isolated_steps(units, pkgs, i, config);
            let dir = steps[k]->Wave_0[y].dir;
            &&& 1 < k < steps.len() - 2
            &&& steps[1] is Seed && steps[1]->Seed_0.contains(dir)
            &&& steps[steps.len() - 2] is Merge && steps[steps.len() - 2]->Merge_0.contains(dir)
        }),
{
    let width = waves::width_of(config.jobs as nat);
    let ws = waves::waves_from(0, pkgs.len(), width);
    let steps = isolated_steps(units, pkgs, i, config);
    let inner = wave_steps(units, pkgs, config);
    let dirs = directories(units, pkgs);
    assert(steps.len() == inner.len() + 4);
    assert(steps[0] is Start);
    assert(steps[1] == V4View::Seed(dirs));
    assert(steps[steps.len() - 2] == V4View::Merge(dirs));
    assert(steps[steps.len() - 1] is End);
    assert(steps[k] == inner[k - 2]);
    waves::law_no_wave_is_too_wide(0, pkgs.len(), width, k - 2);
    let w = ws[k - 2];
    assert(inner[k - 2] == wave_step(units, pkgs, config.release, w));
    assert(dirs[w.0 + y] == iso_name(units[pkgs[w.0 + y] as int]));
}

/// No two cargo processes of a wave share a target directory, unless the ids of their
/// packages have the same hash and their names read the same in a directory name.
pub proof fn law_concurrent_builds_share_no_directory(
    units: Seq<UnitGraphUnit>,
    phase: Seq<usize>,
    release: bool,
    w: (nat, nat),
    i: int,
    j: int,
)
    requires
        w.0 <= w.1 <= driven(units, phase).len(),
        0 <= i < j < w.1 - w.0,
        ({
            let a = units[driven(units, phase)[w.0 + i] as int];
            let b = units[driven(units, phase)[w.0 + j] as int];
            a.pkg_id@ != b.pkg_id@ ==> id_hash(a) != id_hash(b) || sanitized(a.pkg_name@)
                != sanitized(b.pkg_name@)
        }),
    ensures
        wave_step(units, driven(units, phase), release, w)->Wave_0[i].dir != wave_step(
            units,
            driven(units, phase),
            release,
            w,
        )->Wave_0[j].dir,
{
    let pkgs = driven(units, phase);
    law_each_package_is_driven_once(units, phase, w.0 + i, w.0 + j);
    law_isolated_directories_differ(
        units[pkgs[w.0 + i] as int],
        units[pkgs[w.0 + j] as int],
    );
}

} // verus!
