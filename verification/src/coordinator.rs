//! What the coordinator does with a rustc invocation that Cargo hands to it.
//!
//! Probes, build scripts and crates whose `.rlib` is needed run as they are. A
//! library crate is compiled to metadata only, and its invocation queued for code
//! generation. A crate that is only linked is queued without being compiled.

use vstd::prelude::*;
use vstd::string::StringExecFns;
use crate::classifier::ClassifiedUnits;
use crate::text;

verus! {

// ---------------------------------------------------------------------------
// Arguments
// ---------------------------------------------------------------------------

/// The value that the first use of `flag` from position `i` on gives: behind its
/// `=`, or as the next argument.
pub open spec fn value_from(args: Seq<Seq<char>>, flag: Seq<char>, i: int) -> Option<Seq<char>>
    decreases args.len() - i,
{
    if i < 0 || i >= args.len() {
        None
    } else if args[i] == flag {
        if i + 1 < args.len() {
            Some(args[i + 1])
        } else {
            None
        }
    } else if text::has_prefix(args[i], flag + "="@) {
        Some(args[i].skip(flag.len() as int + 1))
    } else {
        value_from(args, flag, i + 1)
    }
}

/// The value of a flag.
pub open spec fn flag_value(args: Seq<Seq<char>>, flag: Seq<char>) -> Option<Seq<char>> {
    value_from(args, flag, 0)
}

/// Finds the value of a flag.
pub fn find_value(args: &[String], flag: &str) -> (r: Option<String>)
    ensures
        text::optional(r) == flag_value(text::texts(args@), flag@),
{
    let ghost av = text::texts(args@);
    let mut prefix = flag.to_owned();
    prefix.append("=");
    proof {
        reveal_strlit("=");
    }
    let n: usize = args.len();
    let mut i: usize = 0;
    while i < n
        invariant
            i <= n,
            n == args@.len(),
            av == text::texts(args@),
            prefix@ == flag@ + "="@,
            "="@.len() == 1,
            value_from(av, flag@, i as int) == flag_value(av, flag@),
        decreases n - i,
    {
        let a = args[i].as_str();
        assert(av[i as int] == a@);
        if text::same(a, flag) {
            if i + 1 < n {
                assert(av[i + 1] == args@[i + 1]@);
                return Some(args[i + 1].as_str().to_owned());
            }
            return None;
        }
        match text::strip_prefix(a, prefix.as_str()) {
            Some(rest) => {
                return Some(rest);
            },
            None => {},
        }
        i += 1;
    }
    None
}

/// The argument asks rustc about itself.
pub open spec fn is_probe(arg: Seq<char>) -> bool {
    ||| arg == "-vV"@
    ||| arg == "-V"@
    ||| arg == "--version"@
    ||| arg == "--print"@
    ||| text::has_prefix(arg, "--print="@)
}

/// The invocation is a probe, compiles no crate, or compiles a build script.
pub open spec fn passes_through(args: Seq<Seq<char>>) -> bool {
    ||| exists|i: int| 0 <= i < args.len() && is_probe(#[trigger] args[i])
    ||| match flag_value(args, "--crate-name"@) {
        Some(name) => text::has_prefix(name, "build_script_"@),
        None => true,
    }
}

/// Whether the invocation is a probe, compiles no crate, or compiles a build script.
pub fn should_passthrough(args: &[String]) -> (r: bool)
    ensures
        r == passes_through(text::texts(args@)),
{
    let ghost av = text::texts(args@);
    let mut i: usize = 0;
    while i < args.len()
        invariant
            i <= args@.len(),
            av == text::texts(args@),
            forall|j: int| 0 <= j < i ==> !is_probe(#[trigger] av[j]),
        decreases args@.len() - i,
    {
        let a = args[i].as_str();
        assert(av[i as int] == a@);
        if text::same(a, "-vV") || text::same(a, "-V") || text::same(a, "--version") || text::same(
            a,
            "--print",
        ) || text::starts_with(a, "--print=") {
            assert(is_probe(av[i as int]));
            return true;
        }
        i += 1;
    }
    match find_value(args, "--crate-name") {
        Some(name) => text::starts_with(name.as_str(), "build_script_"),
        None => true,
    }
}

/// The arguments from position `i` on, with every `--emit` asking for metadata only.
pub open spec fn metadata_args_from(args: Seq<Seq<char>>, i: int) -> Seq<Seq<char>>
    decreases args.len() - i,
{
    if i < 0 || i >= args.len() {
        Seq::empty()
    } else if args[i] == "--emit"@ && i + 1 < args.len() {
        seq!["--emit=dep-info,metadata"@] + metadata_args_from(args, i + 2)
    } else if text::has_prefix(args[i], "--emit="@) {
        seq!["--emit=dep-info,metadata"@] + metadata_args_from(args, i + 1)
    } else {
        seq![args[i]] + metadata_args_from(args, i + 1)
    }
}

/// The arguments, with every `--emit` asking for metadata only.
pub open spec fn metadata_args(args: Seq<Seq<char>>) -> Seq<Seq<char>> {
    metadata_args_from(args, 0)
}

/// Makes every `--emit` ask for metadata only.
pub fn rewrite_emit_metadata(args: &[String]) -> (r: Vec<String>)
    ensures
        text::texts(r@) == metadata_args(text::texts(args@)),
{
    let n: usize = args.len();
    let ghost av = text::texts(args@);
    let mut r: Vec<String> = Vec::new();
    let mut i: usize = 0;
    assert(text::texts(r@) + metadata_args_from(av, 0) =~= metadata_args(av));
    while i < n
        invariant
            i <= n,
            n == args@.len(),
            av == text::texts(args@),
            text::texts(r@) + metadata_args_from(av, i as int) == metadata_args(av),
        decreases n - i,
    {
        let a = args[i].as_str();
        let ghost before = text::texts(r@);
        assert(av[i as int] == a@);
        if text::same(a, "--emit") && i + 1 < n {
            r.push("--emit=dep-info,metadata".to_owned());
            i += 2;
        } else if text::starts_with(a, "--emit=") {
            r.push("--emit=dep-info,metadata".to_owned());
            i += 1;
        } else {
            r.push(a.to_owned());
            i += 1;
        }
        proof {
            let rest = metadata_args_from(av, i as int);
            assert(text::texts(r@) =~= before.push(r@.last()@));
            assert(text::texts(r@) + rest =~= before + (seq![r@.last()@] + rest));
        }
    }
    assert(text::texts(r@) + metadata_args_from(av, i as int) =~= text::texts(r@));
    r
}

/// After rewriting, `--emit` asks for dependency information and metadata, where it
/// asked for anything.
pub proof fn law_rewritten_arguments_emit_metadata_only(args: Seq<Seq<char>>)
    ensures
        flag_value(metadata_args(args), "--emit"@) == match flag_value(args, "--emit"@) {
            Some(_) => Some("dep-info,metadata"@),
            None => None,
        },
{
    lemma_emit_from(args, 0, Seq::empty());
    assert(Seq::<Seq<char>>::empty() + metadata_args(args) =~= metadata_args(args));
}

/// The rewritten arguments behind a front that has no `--emit`.
proof fn lemma_emit_from(args: Seq<Seq<char>>, i: int, front: Seq<Seq<char>>)
    requires
        0 <= i <= args.len(),
    ensures
        value_from(front + metadata_args_from(args, i), "--emit"@, front.len() as int)
            == match value_from(args, "--emit"@, i) {
            Some(_) => Some("dep-info,metadata"@),
            None => None,
        },
    decreases args.len() - i,
{
    reveal_strlit("--emit");
    reveal_strlit("--emit=");
    reveal_strlit("=");
    reveal_strlit("--emit=dep-info,metadata");
    reveal_strlit("dep-info,metadata");
    let flag = "--emit"@;
    let k = front.len() as int;
    let all = front + metadata_args_from(args, i);
    assert("--emit="@ =~= flag + "="@);
    let written = "--emit=dep-info,metadata"@;
    assert(written.take(7) =~= flag + "="@);
    assert(written != flag) by {
        assert(written.len() != flag.len());
    }
    assert(written.skip(7) =~= "dep-info,metadata"@);
    if i < args.len() {
        if args[i] == flag {
            if i + 1 < args.len() {
                assert(all[k] == written);
            } else {
                assert(!text::has_prefix(flag, flag + "="@));
                assert(all[k] == args[i]);
                assert(metadata_args_from(args, i + 1) =~= Seq::<Seq<char>>::empty());
                assert(all.len() == k + 1);
            }
        } else if text::has_prefix(args[i], "--emit="@) {
            assert(all[k] == written);
        } else {
            assert(all[k] == args[i]);
            lemma_emit_from(args, i + 1, front.push(args[i]));
            assert(front.push(args[i]) + metadata_args_from(args, i + 1) =~= all);
        }
    }
}

// ---------------------------------------------------------------------------
// Decisions
// ---------------------------------------------------------------------------

/// The crate is one of a list of names separated by commas.
pub open spec fn is_named_in(csv: Seq<char>, name: Seq<char>) -> bool {
    name.len() > 0 && text::split(csv, ',').contains(name)
}

/// Whether the crate is one of a list of names separated by commas.
pub fn named_in(csv: &str, name: &str) -> (r: bool)
    ensures
        r == is_named_in(csv@, name@),
{
    if name.is_empty() {
        return false;
    }
    let names = text::split_at_char(csv, ',');
    let ghost all = text::texts(names@);
    let mut i: usize = 0;
    while i < names.len()
        invariant
            i <= names@.len(),
            all == text::texts(names@),
            all == text::split(csv@, ','),
            name@.len() > 0,
            forall|j: int| 0 <= j < i ==> all[j] != name@,
        decreases names@.len() - i,
    {
        if text::same(names[i].as_str(), name) {
            assert(all[i as int] == name@);
            return true;
        }
        i += 1;
    }
    false
}

/// What the coordinator does next.
pub enum Action {
    /// Run rustc as it was asked for, and exit with its code.
    RunRustc,
    /// Run rustc with these arguments.
    RunMetadata(Vec<String>),
    /// Queue the invocation.
    Enqueue,
    /// Exit with this code.
    Exit(i32),
}

/// What an [`Action`] holds.
#[verifier::ext_equal]
pub ghost enum ActionView {
    RunRustc,
    RunMetadata(Seq<Seq<char>>),
    Enqueue,
    Exit(int),
}

impl View for Action {
    type V = ActionView;

    open spec fn view(&self) -> ActionView {
        match *self {
            Action::RunRustc => ActionView::RunRustc,
            Action::RunMetadata(args) => ActionView::RunMetadata(text::texts(args@)),
            Action::Enqueue => ActionView::Enqueue,
            Action::Exit(code) => ActionView::Exit(code as int),
        }
    }
}

/// How far the coordinator has come.
#[derive(Debug, Clone, Copy, PartialEq, Eq, Structural)]
pub enum Stage {
    /// Metadata is being compiled.
    Compiling,
    /// An invocation whose metadata is compiled is being queued.
    QueueingCompiled,
    /// An invocation of which nothing was compiled is being queued.
    QueueingUncompiled,
    /// Nothing is left but the last action.
    Finished,
}

/// What came of an action.
#[derive(Debug, Clone, Copy, PartialEq, Eq, Structural)]
pub enum Event {
    /// rustc exited with this code.
    Compiled(i32),
    /// The invocation was queued, or could not be.
    Queued(bool),
}

/// How an invocation begins. Without a queue, nothing can be put off.
pub open spec fn first_action(
    args: Seq<Seq<char>>,
    has_queue: bool,
    needs_rlib: Seq<char>,
) -> (Stage, ActionView) {
    let emit = match flag_value(args, "--emit"@) {
        Some(e) => e,
        None => Seq::empty(),
    };
    if !has_queue || passes_through(args) {
        (Stage::Finished, ActionView::RunRustc)
    } else if is_named_in(needs_rlib, flag_value(args, "--crate-name"@)->0) {
        (Stage::Finished, ActionView::RunRustc)
    } else if text::contains_text(emit, "metadata"@) {
        (Stage::Compiling, ActionView::RunMetadata(metadata_args(args)))
    } else if text::contains_text(emit, "link"@) {
        (Stage::QueueingUncompiled, ActionView::Enqueue)
    } else {
        (Stage::Finished, ActionView::RunRustc)
    }
}

/// What follows. An invocation whose metadata fails to compile fails with it; one
/// that cannot be queued fails, or runs as it was asked for if nothing has run yet.
pub open spec fn next_action(stage: Stage, event: Event) -> (Stage, ActionView) {
    match (stage, event) {
        (Stage::Compiling, Event::Compiled(code)) => if code == 0 {
            (Stage::QueueingCompiled, ActionView::Enqueue)
        } else {
            (Stage::Finished, ActionView::Exit(code as int))
        },
        (Stage::QueueingCompiled, Event::Queued(true)) => (Stage::Finished, ActionView::Exit(0)),
        (Stage::QueueingCompiled, Event::Queued(false)) => (Stage::Finished, ActionView::Exit(1)),
        (Stage::QueueingUncompiled, Event::Queued(true)) => (Stage::Finished, ActionView::Exit(0)),
        (Stage::QueueingUncompiled, Event::Queued(false)) => (
            Stage::Finished,
            ActionView::RunRustc,
        ),
        _ => (Stage::Finished, ActionView::RunRustc),
    }
}

/// Decides how an invocation begins. `needs_rlib` names, separated by commas, the
/// crates that need a real `.rlib`.
pub fn begin(args: &[String], has_queue: bool, needs_rlib: &str) -> (r: (Stage, Action))
    ensures
        (r.0, r.1@) == first_action(text::texts(args@), has_queue, needs_rlib@),
{
    if !has_queue || should_passthrough(args) {
        return (Stage::Finished, Action::RunRustc);
    }
    let name = find_value(args, "--crate-name").unwrap();
    if named_in(needs_rlib, name.as_str()) {
        return (Stage::Finished, Action::RunRustc);
    }
    let emit = match find_value(args, "--emit") {
        Some(e) => e,
        None => String::new(),
    };
    proof {
        if flag_value(text::texts(args@), "--emit"@) is None {
            assert(emit@ =~= Seq::<char>::empty());
        }
    }
    if text::contains(emit.as_str(), "metadata") {
        (Stage::Compiling, Action::RunMetadata(rewrite_emit_metadata(args)))
    } else if text::contains(emit.as_str(), "link") {
        (Stage::QueueingUncompiled, Action::Enqueue)
    } else {
        (Stage::Finished, Action::RunRustc)
    }
}

/// Decides what follows. An event that does not belong to the stage lets rustc run
/// as it was asked for.
pub fn proceed(stage: Stage, event: Event) -> (r: (Stage, Action))
    ensures
        (r.0, r.1@) == next_action(stage, event),
{
    match (stage, event) {
        (Stage::Compiling, Event::Compiled(code)) => if code == 0 {
            (Stage::QueueingCompiled, Action::Enqueue)
        } else {
            (Stage::Finished, Action::Exit(code))
        },
        (Stage::QueueingCompiled, Event::Queued(true)) => (Stage::Finished, Action::Exit(0)),
        (Stage::QueueingCompiled, Event::Queued(false)) => (Stage::Finished, Action::Exit(1)),
        (Stage::QueueingUncompiled, Event::Queued(true)) => (Stage::Finished, Action::Exit(0)),
        (Stage::QueueingUncompiled, Event::Queued(false)) => (Stage::Finished, Action::RunRustc),
        _ => (Stage::Finished, Action::RunRustc),
    }
}

// ---------------------------------------------------------------------------
// Laws
// ---------------------------------------------------------------------------

/// A list of names is read as the names that were written, where no name holds a
/// comma.
pub proof fn law_listed_names_are_found(names: Seq<Seq<char>>, name: Seq<char>)
    requires
        forall|i: int| 0 <= i < names.len() ==> !(#[trigger] names[i]).contains(','),
        name.len() > 0,
    ensures
        is_named_in(text::joined(names, ","@), name) <==> names.contains(name),
{
    reveal_strlit(",");
    assert(","@ =~= seq![',']);
    if names.len() == 0 {
        let nothing = Seq::<char>::empty();
        assert(text::joined(names, ","@) =~= nothing);
        assert(text::split(nothing, ',') =~= seq![nothing]);
        if seq![nothing].contains(name) {
            assert(name == nothing);
        }
    } else {
        text::law_split_undoes_join(names, ',');
    }
}

/// A crate that was classified as needing its `.rlib` is compiled by rustc as Cargo
/// asked for, and nothing of it is queued.
pub proof fn law_needed_crates_run_at_once(
    c: ClassifiedUnits,
    args: Seq<Seq<char>>,
    has_queue: bool,
    name: Seq<char>,
)
    requires
        forall|n: Seq<char>| #[trigger] c.needs_rlib@.contains(n) ==> !n.contains(','),
        c.needs_rlib@.contains(name),
        name.len() > 0,
        flag_value(args, "--crate-name"@) == Some(name),
    ensures
        first_action(
            args,
            has_queue,
            text::joined(text::texts(c.needs_rlib.names@), ","@),
        ) == (Stage::Finished, ActionView::RunRustc),
{
    let names = text::texts(c.needs_rlib.names@);
    assert forall|i: int| 0 <= i < names.len() implies !(#[trigger] names[i]).contains(',') by {
        assert(names.contains(names[i]));
        assert(c.needs_rlib@.contains(names[i]));
    }
    law_listed_names_are_found(names, name);
}

/// A library crate that was not classified as needing its `.rlib` is compiled to
/// metadata only.
pub proof fn law_deferred_crates_compile_to_metadata(
    c: ClassifiedUnits,
    args: Seq<Seq<char>>,
    name: Seq<char>,
)
    requires
        forall|n: Seq<char>| #[trigger] c.needs_rlib@.contains(n) ==> !n.contains(','),
        !c.needs_rlib@.contains(name),
        name.len() > 0,
        flag_value(args, "--crate-name"@) == Some(name),
        !passes_through(args),
        flag_value(args, "--emit"@) is Some,
        text::contains_text(flag_value(args, "--emit"@)->0, "metadata"@),
    ensures
        first_action(
            args,
            true,
            text::joined(text::texts(c.needs_rlib.names@), ","@),
        ) == (Stage::Compiling, ActionView::RunMetadata(metadata_args(args))),
{
    let names = text::texts(c.needs_rlib.names@);
    assert forall|i: int| 0 <= i < names.len() implies !(#[trigger] names[i]).contains(',') by {
        assert(names.contains(names[i]));
        assert(c.needs_rlib@.contains(names[i]));
    }
    law_listed_names_are_found(names, name);
}

/// Without a queue the coordinator changes nothing.
pub proof fn law_without_a_queue_everything_runs(args: Seq<Seq<char>>, needs_rlib: Seq<char>)
    ensures
        first_action(args, false, needs_rlib) == (Stage::Finished, ActionView::RunRustc),
{
}

/// An invocation whose metadata is compiled first is queued exactly if that succeeds.
/// If it fails, Cargo is told of rustc's own exit code.
pub proof fn law_nothing_is_queued_after_a_failed_compile(event: Event)
    ensures
        next_action(Stage::Compiling, event).1 is Enqueue <==> event == Event::Compiled(0),
        match event {
            Event::Compiled(code) => code != 0 ==> next_action(Stage::Compiling, event) == (
                Stage::Finished,
                ActionView::Exit(code as int),
            ),
            Event::Queued(_) => true,
        },
{
}

} // verus!
