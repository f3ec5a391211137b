//! Invocations that Cargo hands to the coordinator.

use vstd::prelude::*;
use crate::coordinator::{self, ActionView, Event, Stage};
use crate::laws::texts;
use crate::text;

verus! {

/// The list with an argument in front.
pub open spec fn and_then(arg: Seq<char>, rest: Seq<Seq<char>>) -> Seq<Seq<char>> {
    seq![arg] + rest
}

// ---------------------------------------------------------------------------
// Values of flags
// ---------------------------------------------------------------------------

proof fn lemma_value_shifts(
    a: Seq<Seq<char>>,
    i: int,
    b: Seq<Seq<char>>,
    j: int,
    flag: Seq<char>,
)
    requires
        0 <= i <= a.len(),
        0 <= j <= b.len(),
        a.skip(i) == b.skip(j),
    ensures
        coordinator::value_from(a, flag, i) == coordinator::value_from(b, flag, j),
    decreases a.len() - i,
{
    assert(a.len() - i == a.skip(i).len());
    assert(b.len() - j == b.skip(j).len());
    if i < a.len() {
        assert(a[i] == a.skip(i)[0]);
        assert(b[j] == b.skip(j)[0]);
        if i + 1 < a.len() {
            assert(a[i + 1] == a.skip(i)[1]);
            assert(b[j + 1] == b.skip(j)[1]);
        }
        assert(a.skip(i + 1) =~= a.skip(i).skip(1));
        assert(b.skip(j + 1) =~= b.skip(j).skip(1));
        lemma_value_shifts(a, i + 1, b, j + 1, flag);
    }
}

/// The value of a flag is the argument behind it, or what stands behind its `=`; the
/// first use of the flag decides, and other arguments do not matter.
pub proof fn law_flag_values(
    flag: Seq<char>,
    value: Seq<char>,
    other: Seq<char>,
    rest: Seq<Seq<char>>,
)
    requires
        other != flag,
        !text::has_prefix(other, flag + seq!['=']),
    ensures
        coordinator::flag_value(Seq::empty(), flag) is None,
        coordinator::flag_value(seq![flag], flag) is None,
        coordinator::flag_value(and_then(flag, and_then(value, rest)), flag) == Some(value),
        coordinator::flag_value(and_then(flag + seq!['='] + value, rest), flag) == Some(value),
        coordinator::flag_value(and_then(other, rest), flag) == coordinator::flag_value(rest, flag),
{
    reveal_strlit("=");
    assert("="@ =~= seq!['=']);
    let two = and_then(flag, and_then(value, rest));
    assert(two[0] == flag);
    assert(two[1] == value);
    let written = flag + seq!['='] + value;
    let one = and_then(written, rest);
    assert(one[0] == written);
    assert(written.len() > flag.len());
    texts::law_prefix(written, flag + seq!['='], value);
    assert(written.skip(flag.len() as int + 1) =~= value);
    let late = and_then(other, rest);
    assert(late[0] == other);
    assert(late.skip(1) =~= rest.skip(0));
    lemma_value_shifts(late, 1, rest, 0, flag);
}

// ---------------------------------------------------------------------------
// Rewriting
// ---------------------------------------------------------------------------

proof fn lemma_rewriting_shifts(a: Seq<Seq<char>>, i: int, b: Seq<Seq<char>>, j: int)
    requires
        0 <= i <= a.len(),
        0 <= j <= b.len(),
        a.skip(i) == b.skip(j),
    ensures
        coordinator::metadata_args_from(a, i) == coordinator::metadata_args_from(b, j),
    decreases a.len() - i,
{
    assert(a.len() - i == a.skip(i).len());
    assert(b.len() - j == b.skip(j).len());
    if i < a.len() {
        assert(a[i] == a.skip(i)[0]);
        assert(b[j] == b.skip(j)[0]);
        assert(a.skip(i + 1) =~= a.skip(i).skip(1));
        assert(b.skip(j + 1) =~= b.skip(j).skip(1));
        lemma_rewriting_shifts(a, i + 1, b, j + 1);
        if i + 1 < a.len() {
            assert(a.skip(i + 2) =~= a.skip(i).skip(2));
            assert(b.skip(j + 2) =~= b.skip(j).skip(2));
            lemma_rewriting_shifts(a, i + 2, b, j + 2);
        }
    }
}

/// Rewriting goes through the arguments one by one: an `--emit`, in either form, asks
/// for dependency information and metadata, and every other argument stays as it is.
pub proof fn law_rewriting(value: Seq<char>, other: Seq<char>, rest: Seq<Seq<char>>)
    requires
        other != "--emit"@,
        !text::has_prefix(other, "--emit="@),
    ensures
        coordinator::metadata_args(Seq::empty()) == Seq::<Seq<char>>::empty(),
        coordinator::metadata_args(and_then("--emit"@, and_then(value, rest))) == and_then(
            "--emit=dep-info,metadata"@,
            coordinator::metadata_args(rest),
        ),
        coordinator::metadata_args(and_then("--emit="@ + value, rest)) == and_then(
            "--emit=dep-info,metadata"@,
            coordinator::metadata_args(rest),
        ),
        coordinator::metadata_args(seq!["--emit"@]) == seq!["--emit"@],
        coordinator::metadata_args(and_then(other, rest)) == and_then(
            other,
            coordinator::metadata_args(rest),
        ),
{
    reveal_strlit("--emit");
    reveal_strlit("--emit=");
    assert(coordinator::metadata_args(Seq::empty()) =~= Seq::<Seq<char>>::empty());
    let two = and_then("--emit"@, and_then(value, rest));
    assert(two[0] == "--emit"@);
    assert(two.skip(2) =~= rest.skip(0));
    lemma_rewriting_shifts(two, 2, rest, 0);
    let one = and_then("--emit="@ + value, rest);
    assert(one[0] == "--emit="@ + value);
    assert(one[0].len() > "--emit"@.len());
    texts::law_prefix(one[0], "--emit="@, value);
    assert(one.skip(1) =~= rest.skip(0));
    lemma_rewriting_shifts(one, 1, rest, 0);
    let alone = seq!["--emit"@];
    assert(!text::has_prefix("--emit"@, "--emit="@));
    assert(coordinator::metadata_args_from(alone, 1) =~= Seq::<Seq<char>>::empty());
    assert(coordinator::metadata_args(alone) =~= alone);
    let late = and_then(other, rest);
    assert(late[0] == other);
    assert(late.skip(1) =~= rest.skip(0));
    lemma_rewriting_shifts(late, 1, rest, 0);
}

/// Rewriting changes nothing where nothing asks for an output.
pub proof fn law_rewriting_keeps_what_it_need_not_change(args: Seq<Seq<char>>)
    requires
        forall|i: int|
            0 <= i < args.len() ==> (#[trigger] args[i]) != "--emit"@ && !text::has_prefix(
                args[i],
                "--emit="@,
            ),
    ensures
        coordinator::metadata_args(args) == args,
    decreases args.len(),
{
    if args.len() == 0 {
        assert(coordinator::metadata_args(args) =~= args);
    } else {
        let rest = args.drop_first();
        assert forall|i: int| 0 <= i < rest.len() implies (#[trigger] rest[i]) != "--emit"@
            && !text::has_prefix(rest[i], "--emit="@) by {
            assert(rest[i] == args[i + 1]);
        }
        law_rewriting_keeps_what_it_need_not_change(rest);
        assert(args =~= and_then(args[0], rest));
        law_rewriting(Seq::empty(), args[0], rest);
    }
}

/// The arguments that neither ask for an output nor are the value of such an argument.
pub open spec fn besides_emit(args: Seq<Seq<char>>) -> Seq<Seq<char>>
    decreases args.len(),
{
    if args.len() == 0 {
        Seq::empty()
    } else if args[0] == "--emit"@ && args.len() > 1 {
        besides_emit(args.skip(2))
    } else if text::has_prefix(args[0], "--emit"@) {
        besides_emit(args.skip(1))
    } else {
        and_then(args[0], besides_emit(args.skip(1)))
    }
}

/// What rewriting does not concern comes out as it went in, in its order.
pub proof fn law_rewriting_changes_emit_only(args: Seq<Seq<char>>)
    ensures
        besides_emit(coordinator::metadata_args(args)) == besides_emit(args),
    decreases args.len(),
{
    reveal_strlit("--emit");
    reveal_strlit("--emit=");
    reveal_strlit("--emit=dep-info,metadata");
    let out = coordinator::metadata_args(args);
    let written = "--emit=dep-info,metadata"@;
    assert(written.take(6) =~= "--emit"@);
    assert(written.len() != "--emit"@.len());
    if args.len() == 0 {
        law_rewriting_keeps_what_it_need_not_change(args);
    } else if args[0] == "--emit"@ && args.len() > 1 {
        let rest = args.skip(2);
        assert(args =~= and_then("--emit"@, and_then(args[1], rest)));
        law_rewriting(args[1], Seq::empty(), rest);
        law_rewriting_changes_emit_only(rest);
        assert(out[0] == written);
        assert(out.skip(1) =~= coordinator::metadata_args(rest));
    } else if args[0] == "--emit"@ {
        assert(args =~= seq!["--emit"@]);
        law_rewriting(Seq::empty(), Seq::empty(), args);
    } else {
        let rest = args.skip(1);
        assert(args =~= and_then(args[0], rest));
        law_rewriting_changes_emit_only(rest);
        if text::has_prefix(args[0], "--emit="@) {
            let value = args[0].skip(7);
            texts::law_prefix(args[0], "--emit="@, value);
            law_rewriting(value, Seq::empty(), rest);
            assert(args[0].take(6) =~= "--emit"@) by {
                assert(args[0].take(7).take(6) =~= args[0].take(6));
                assert("--emit="@.take(6) =~= "--emit"@);
            }
            assert(out[0] == written);
        } else {
            law_rewriting(Seq::empty(), args[0], rest);
            assert(out[0] == args[0]);
        }
        assert(out.skip(1) =~= coordinator::metadata_args(rest));
    }
}

// ---------------------------------------------------------------------------
// Decisions
// ---------------------------------------------------------------------------

/// The argument asks rustc about itself.
pub open spec fn asks_about_rustc(arg: Seq<char>) -> bool {
    ||| arg == "-vV"@
    ||| arg == "-V"@
    ||| arg == "--version"@
    ||| arg == "--print"@
    ||| exists|what: Seq<char>| arg == #[trigger] ("--print="@ + what)
}

/// What is asked about rustc itself, what compiles a build script, and what compiles no
/// crate runs as it is.
pub proof fn law_what_compiles_no_crate_runs(
    args: Seq<Seq<char>>,
    has_queue: bool,
    needs_rlib: Seq<char>,
    i: int,
    script: Seq<char>,
)
    requires
        (0 <= i < args.len() && asks_about_rustc(args[i])) || coordinator::flag_value(
            args,
            "--crate-name"@,
        ) is None || coordinator::flag_value(args, "--crate-name"@) == Some(
            "build_script_"@ + script,
        ),
    ensures
        coordinator::first_action(args, has_queue, needs_rlib) == (
            Stage::Finished,
            ActionView::RunRustc,
        ),
{
    if 0 <= i < args.len() && asks_about_rustc(args[i]) {
        if exists|what: Seq<char>| args[i] == #[trigger] ("--print="@ + what) {
            let what = choose|what: Seq<char>| args[i] == #[trigger] ("--print="@ + what);
            texts::law_prefix(args[i], "--print="@, what);
        }
        assert(coordinator::is_probe(args[i]));
    }
    texts::law_prefix("build_script_"@ + script, "build_script_"@, script);
}

/// A crate that is compiled, is no build script and is not needed at once is decided by
/// what it is to emit: metadata, then it is compiled to metadata only; else a linked
/// output, then it is put off; else it runs as it is.
pub proof fn law_other_crates_are_decided_by_their_output(
    args: Seq<Seq<char>>,
    needs_rlib: Seq<char>,
    name: Seq<char>,
)
    requires
        forall|i: int| 0 <= i < args.len() ==> !asks_about_rustc(#[trigger] args[i]),
        coordinator::flag_value(args, "--crate-name"@) == Some(name),
        !text::has_prefix(name, "build_script_"@),
        name.len() == 0 || !text::split(needs_rlib, ',').contains(name),
    ensures
        ({
            let emit = match coordinator::flag_value(args, "--emit"@) {
                Some(e) => e,
                None => Seq::empty(),
            };
            coordinator::first_action(args, true, needs_rlib) == if text::contains_text(
                emit,
                "metadata"@,
            ) {
                (Stage::Compiling, ActionView::RunMetadata(coordinator::metadata_args(args)))
            } else if text::contains_text(emit, "link"@) {
                (Stage::QueueingUncompiled, ActionView::Enqueue)
            } else {
                (Stage::Finished, ActionView::RunRustc)
            }
        }),
{
    assert forall|i: int| 0 <= i < args.len() implies !coordinator::is_probe(#[trigger] args[i]) by {
        assert(!asks_about_rustc(args[i]));
        if text::has_prefix(args[i], "--print="@) {
            let what = args[i].skip("--print="@.len() as int);
            texts::law_prefix(args[i], "--print="@, what);
            assert(args[i] == "--print="@ + what);
        }
    }
}

/// A crate whose name stands in the list of those that are needed runs as it is.
pub proof fn law_listed_crates_run(args: Seq<Seq<char>>, has_queue: bool, needs_rlib: Seq<char>)
    requires
        coordinator::flag_value(args, "--crate-name"@) is Some,
        coordinator::flag_value(args, "--crate-name"@)->0.len() > 0,
        text::split(needs_rlib, ',').contains(coordinator::flag_value(args, "--crate-name"@)->0),
    ensures
        coordinator::first_action(args, has_queue, needs_rlib) == (
            Stage::Finished,
            ActionView::RunRustc,
        ),
{
}

/// What follows each outcome. Queueing what was compiled ends the invocation, well or
/// badly; what was not compiled runs after all if it cannot be queued.
pub proof fn law_what_follows(code: i32, queued: bool)
    ensures
        coordinator::next_action(Stage::Compiling, Event::Compiled(code)) == if code == 0 {
            (Stage::QueueingCompiled, ActionView::Enqueue)
        } else {
            (Stage::Finished, ActionView::Exit(code as int))
        },
        coordinator::next_action(Stage::QueueingCompiled, Event::Queued(queued)) == (
            Stage::Finished,
            ActionView::Exit(
                if queued {
                    0
                } else {
                    1
                },
            ),
        ),
        coordinator::next_action(Stage::QueueingUncompiled, Event::Queued(queued)) == (
            Stage::Finished,
            if queued {
                ActionView::Exit(0)
            } else {
                ActionView::RunRustc
            },
        ),
{
}

} // verus!
