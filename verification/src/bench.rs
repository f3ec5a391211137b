//! The benchmark: cold builds in three modes, one after another.
//!
//!   1. serial:         `cargo build -j1`
//!   2. cargo parallel: `cargo build -jN`
//!   3. parallel-rustc: the phase-driven build

use vstd::prelude::*;
use vstd::string::StringExecFns;
use crate::builder::BuildConfig;
use crate::metadata::Metadata;
use crate::{builder, layers, text};

verus! {

/// A step of the benchmark. The steps are taken in order, up to the first that fails.
pub enum BenchStep {
    /// Print this line.
    Say(String),
    /// Run cargo with these arguments, without its output and without timing it.
    Clean(Vec<String>),
    /// Run cargo with these arguments and time it.
    Cargo(Vec<String>),
    /// Run the phase-driven build and time it.
    Phases,
}

/// What a [`BenchStep`] holds.
#[verifier::ext_equal]
pub ghost enum StepView {
    Say(Seq<char>),
    Clean(Seq<Seq<char>>),
    Cargo(Seq<Seq<char>>),
    Phases,
}

impl View for BenchStep {
    type V = StepView;

    open spec fn view(&self) -> StepView {
        match *self {
            BenchStep::Say(line) => StepView::Say(line@),
            BenchStep::Clean(args) => StepView::Clean(text::texts(args@)),
            BenchStep::Cargo(args) => StepView::Cargo(text::texts(args@)),
            BenchStep::Phases => StepView::Phases,
        }
    }
}

/// What the steps of a vector hold.
pub open spec fn step_views(v: Seq<BenchStep>) -> Seq<StepView> {
    v.map_values(|s: BenchStep| s@)
}

/// The arguments that make cargo build the workspace with so many jobs.
pub open spec fn workspace_args(release: bool, jobs: nat) -> Seq<Seq<char>> {
    seq!["build"@] + (if release {
        seq!["--release"@]
    } else {
        Seq::empty()
    }) + seq!["-j"@, text::decimal(jobs)]
}

/// The steps of the benchmark.
pub open spec fn steps_of(config: BuildConfig) -> Seq<StepView> {
    let jobs = text::decimal(config.jobs as nat);
    seq![
        StepView::Say("  [1/3] serial (-j1)         ..."@),
        StepView::Clean(seq!["clean"@]),
        StepView::Cargo(workspace_args(config.release, 1)),
        StepView::Say("  [2/3] cargo parallel (-j"@ + jobs + ") ..."@),
        StepView::Clean(seq!["clean"@]),
        StepView::Cargo(workspace_args(config.release, config.jobs as nat)),
        StepView::Say("  [3/3] parallel-rustc (-j"@ + jobs + ") ..."@),
        StepView::Clean(seq!["clean"@]),
        StepView::Phases,
    ]
}

/// The arguments that make cargo build the workspace with so many jobs.
pub fn cargo_args(release: bool, jobs: usize) -> (args: Vec<String>)
    ensures
        text::texts(args@) == workspace_args(release, jobs as nat),
{
    let mut args: Vec<String> = Vec::new();
    args.push("build".to_owned());
    if release {
        args.push("--release".to_owned());
    }
    args.push("-j".to_owned());
    args.push(text::decimal_text(jobs));
    assert(text::texts(args@) =~= workspace_args(release, jobs as nat));
    args
}

fn clean_args() -> (args: Vec<String>)
    ensures
        text::texts(args@) == seq!["clean"@],
{
    let mut args: Vec<String> = Vec::new();
    args.push("clean".to_owned());
    assert(text::texts(args@) =~= seq!["clean"@]);
    args
}

fn mode_line(mode: &str, jobs: usize) -> (r: String)
    ensures
        r@ == mode@ + text::decimal(jobs as nat) + ") ..."@,
{
    let mut r = mode.to_owned();
    r.append(text::decimal_text(jobs).as_str());
    r.append(") ...");
    r
}

/// The steps of the benchmark. Every mode starts cold.
pub fn bench_steps(config: &BuildConfig) -> (steps: Vec<BenchStep>)
    ensures
        step_views(steps@) == steps_of(*config),
{
    let mut steps: Vec<BenchStep> = Vec::new();
    steps.push(BenchStep::Say("  [1/3] serial (-j1)         ...".to_owned()));
    steps.push(BenchStep::Clean(clean_args()));
    steps.push(BenchStep::Cargo(cargo_args(config.release, 1)));
    steps.push(BenchStep::Say(mode_line("  [2/3] cargo parallel (-j", config.jobs)));
    steps.push(BenchStep::Clean(clean_args()));
    steps.push(BenchStep::Cargo(cargo_args(config.release, config.jobs)));
    steps.push(BenchStep::Say(mode_line("  [3/3] parallel-rustc (-j", config.jobs)));
    steps.push(BenchStep::Clean(clean_args()));
    steps.push(BenchStep::Phases);
    assert(step_views(steps@) =~= steps_of(*config));
    steps
}

/// The lines above the benchmark.
pub open spec fn header_of(meta: Metadata, config: BuildConfig) -> Seq<Seq<char>> {
    seq!["parallel-rustc bench"@] + (if meta.workspace_root@.len() == 0 {
        Seq::empty()
    } else {
        seq!["workspace: "@ + meta.workspace_root@]
    }) + seq![
        Seq::empty(),
        "Running 3 build modes (cold builds, "@ + builder::profile_name(config.release) + ")..."@,
        Seq::empty(),
    ]
}

/// The lines above the benchmark.
pub fn header_lines(meta: &Metadata, config: &BuildConfig) -> (lines: Vec<String>)
    ensures
        text::texts(lines@) == header_of(*meta, *config),
{
    let mut lines: Vec<String> = Vec::new();
    lines.push("parallel-rustc bench".to_owned());
    if !meta.workspace_root.as_str().is_empty() {
        let mut root = "workspace: ".to_owned();
        root.append(meta.workspace_root.as_str());
        lines.push(root);
    }
    lines.push(String::new());
    let mut modes = "Running 3 build modes (cold builds, ".to_owned();
    modes.append(builder::profile(config.release));
    modes.append(")...");
    lines.push(modes);
    lines.push(String::new());
    assert(text::texts(lines@) =~= header_of(*meta, *config));
    lines
}

/// The text, with spaces in front to make it at least so wide.
pub open spec fn right_aligned(s: Seq<char>, width: nat) -> Seq<char>
    decreases width,
{
    if s.len() >= width {
        s
    } else {
        seq![' '] + right_aligned(s, (width - 1) as nat)
    }
}

/// Writes `n`, with spaces in front to make it at least so wide.
fn right_aligned_text(n: usize, width: usize) -> (r: String)
    ensures
        r@ == right_aligned(text::decimal(n as nat), width as nat),
{
    let digits = text::decimal_text(n);
    let size: usize = text::chars_of(digits.as_str()).len();
    let mut r = String::new();
    let mut w: usize = width;
    assert(r@ + right_aligned(digits@, w as nat) =~= right_aligned(digits@, w as nat));
    while w > size
        invariant
            size == digits@.len(),
            digits@ == text::decimal(n as nat),
            r@ + right_aligned(digits@, w as nat) == right_aligned(digits@, width as nat),
        decreases w,
    {
        let ghost before = r@;
        let ghost rest = right_aligned(digits@, (w - 1) as nat);
        r.push(' ');
        assert(r@ + rest =~= before + (seq![' '] + rest));
        w -= 1;
    }
    r.append(digits.as_str());
    r
}

/// The lines on the phases, below the timings.
pub open spec fn phase_figures(phases: Seq<Seq<usize>>, width: nat) -> Seq<Seq<char>> {
    seq![
        "  phases used:     "@ + right_aligned(text::decimal(phases.len()), 5),
        "  max phase width: "@ + right_aligned(text::decimal(width), 5),
    ]
}

/// The lines on the phases, below the timings.
pub fn phase_lines(phases: &[Vec<usize>]) -> (lines: Vec<String>)
    ensures
        exists|width: nat| #[trigger]
            builder::is_max_width(layers::lists(phases@), width) && text::texts(lines@)
                == phase_figures(layers::lists(phases@), width),
{
    let width = builder::max_width(phases);
    let mut lines: Vec<String> = Vec::new();
    let mut used = "  phases used:     ".to_owned();
    used.append(right_aligned_text(phases.len(), 5).as_str());
    lines.push(used);
    let mut widest = "  max phase width: ".to_owned();
    widest.append(right_aligned_text(width, 5).as_str());
    lines.push(widest);
    assert(text::texts(lines@) =~= phase_figures(layers::lists(phases@), width as nat));
    lines
}

} // verus!
