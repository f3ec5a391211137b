//! Recorded and queued rustc invocations: what their arguments say, and what they wait
//! for.

use vstd::prelude::*;
use crate::laws::arguments::and_then;
use crate::laws::texts;
use crate::recorder::{self, Token, UnitView};
use crate::{builder_v5, capture, codegen, json, paths, text};

verus! {

// ---------------------------------------------------------------------------
// Arguments
// ---------------------------------------------------------------------------

proof fn lemma_tokens_shift(a: Seq<Seq<char>>, i: int, b: Seq<Seq<char>>, j: int)
    requires
        0 <= i <= a.len(),
        0 <= j <= b.len(),
        a.skip(i) == b.skip(j),
    ensures
        recorder::tokens(a, i) == recorder::tokens(b, j),
    decreases a.len() - i,
{
    assert(a.len() - i == a.skip(i).len());
    assert(b.len() - j == b.skip(j).len());
    if i < a.len() {
        assert(a[i] == a.skip(i)[0]);
        assert(b[j] == b.skip(j)[0]);
        assert(a.skip(i + 1) =~= a.skip(i).skip(1));
        assert(b.skip(j + 1) =~= b.skip(j).skip(1));
        lemma_tokens_shift(a, i + 1, b, j + 1);
        if i + 1 < a.len() {
            assert(a[i + 1] == a.skip(i)[1]);
            assert(b[j + 1] == b.skip(j)[1]);
            assert(a.skip(i + 2) =~= a.skip(i).skip(2));
            assert(b.skip(j + 2) =~= b.skip(j).skip(2));
            lemma_tokens_shift(a, i + 2, b, j + 2);
        }
    }
}

/// Some token has this flag.
spec fn has_flag(ts: Seq<Token>, flag: Seq<char>) -> bool {
    exists|i: int| 0 <= i < ts.len() && (#[trigger] ts[i]).flag == flag
}

proof fn lemma_token_in_front(t: Token, ts: Seq<Token>, flag: Seq<char>)
    ensures
        recorder::last_value(seq![t] + ts, flag) == if has_flag(ts, flag) {
            recorder::last_value(ts, flag)
        } else if t.flag == flag {
            t.value
        } else {
            Seq::empty()
        },
        !has_flag(ts, flag) ==> recorder::last_value(ts, flag) == Seq::<char>::empty(),
        recorder::extern_paths(seq![t] + ts) == (match recorder::extern_path(t) {
            Some(path) => seq![path],
            None => Seq::empty(),
        }) + recorder::extern_paths(ts),
        recorder::first_word(seq![t] + ts) == if t.flag.len() == 0 && t.value.len() > 0 {
            t.value
        } else {
            recorder::first_word(ts)
        },
    decreases ts.len(),
{
    let all = seq![t] + ts;
    if ts.len() == 0 {
        assert(all.drop_last() =~= Seq::<Token>::empty());
        assert(all.last() == t);
        assert(recorder::last_value(all.drop_last(), flag) =~= Seq::<char>::empty());
        assert(recorder::extern_paths(all.drop_last()) =~= Seq::<Seq<char>>::empty());
        assert(recorder::extern_paths(ts) =~= Seq::<Seq<char>>::empty());
        assert(recorder::extern_paths(all) =~= (match recorder::extern_path(t) {
            Some(path) => seq![path],
            None => Seq::empty(),
        }) + recorder::extern_paths(ts));
        assert(recorder::first_word(all.drop_last()).len() == 0);
        if t.flag.len() == 0 && t.value.len() == 0 {
            assert(recorder::first_word(all) =~= Seq::<char>::empty());
        }
    } else {
        let front = ts.drop_last();
        assert(all.drop_last() =~= seq![t] + front);
        assert(all.last() == ts.last());
        lemma_token_in_front(t, front, flag);
        assert(ts[ts.len() - 1] == ts.last());
        if has_flag(front, flag) {
            let i = choose|i: int| 0 <= i < front.len() && (#[trigger] front[i]).flag == flag;
            assert(ts[i].flag == flag);
        }
        if has_flag(ts, flag) && ts.last().flag != flag {
            let i = choose|i: int| 0 <= i < ts.len() && (#[trigger] ts[i]).flag == flag;
            assert(front[i].flag == flag);
        }
        assert(recorder::extern_paths(all) =~= (match recorder::extern_path(t) {
            Some(path) => seq![path],
            None => Seq::empty(),
        }) + recorder::extern_paths(ts));
    }
}

/// Neither the flag nor the flag with its `=` is among the arguments.
pub open spec fn is_unused(flag: Seq<char>, args: Seq<Seq<char>>) -> bool {
    forall|i: int|
        0 <= i < args.len() ==> (#[trigger] args[i]) != flag && !text::has_prefix(
            args[i],
            flag + seq!['='],
        )
}

proof fn lemma_unused_gives_no_token(argv: Seq<Seq<char>>, i: int, flag: Seq<char>)
    requires
        flag.len() > 0,
        0 <= i <= argv.len(),
        is_unused(flag, argv.skip(i)),
    ensures
        !has_flag(recorder::tokens(argv, i), flag),
    decreases argv.len() - i,
{
    if i < argv.len() {
        let arg = argv[i];
        assert(argv.skip(i)[0] == arg);
        assert forall|k: int| 0 <= k < argv.skip(i + 1).len() implies (#[trigger] argv.skip(
            i + 1,
        )[k]) != flag && !text::has_prefix(argv.skip(i + 1)[k], flag + seq!['=']) by {
            assert(argv.skip(i)[k + 1] == argv.skip(i + 1)[k]);
        }
        if recorder::is_valued(arg) {
            if i + 1 < argv.len() {
                assert forall|k: int| 0 <= k < argv.skip(i + 2).len() implies (
                #[trigger] argv.skip(i + 2)[k]) != flag && !text::has_prefix(
                    argv.skip(i + 2)[k],
                    flag + seq!['='],
                ) by {
                    assert(argv.skip(i)[k + 2] == argv.skip(i + 2)[k]);
                }
                lemma_unused_gives_no_token(argv, i + 2, flag);
                let ts = recorder::tokens(argv, i + 2);
                let all = recorder::tokens(argv, i);
                if has_flag(all, flag) {
                    let k = choose|k: int| 0 <= k < all.len() && (#[trigger] all[k]).flag == flag;
                    assert(k > 0);
                    assert(ts[k - 1].flag == flag);
                }
            }
        } else {
            lemma_unused_gives_no_token(argv, i + 1, flag);
            let ts = recorder::tokens(argv, i + 1);
            let all = recorder::tokens(argv, i);
            if has_flag(all, flag) {
                let k = choose|k: int| 0 <= k < all.len() && (#[trigger] all[k]).flag == flag;
                match recorder::single_token(arg) {
                    Some(t) => {
                        if k == 0 {
                            lemma_cut_is_whole(arg, '=');
                            let (f, v) = text::cut_first(arg, '=')->0;
                            texts::law_prefix(arg, flag + seq!['='], v);
                            assert(false);
                        } else {
                            assert(ts[k - 1].flag == flag);
                        }
                    },
                    None => {
                        assert(ts[k].flag == flag);
                    },
                }
            }
        }
    }
}

proof fn lemma_cut_is_whole(s: Seq<char>, c: char)
    ensures
        match text::cut_first(s, c) {
            Some((a, b)) => s == a + seq![c] + b && !a.contains(c),
            None => true,
        },
{
    if s.contains(c) {
        let k = texts::lemma_first_place(s, c);
        text::lemma_cut_first(s, c, k);
        assert(s =~= s.take(k) + seq![c] + s.skip(k + 1));
        assert forall|j: int| 0 <= j < k implies s.take(k)[j] != c by {}
    } else {
        text::lemma_cut_none(s, c);
    }
}

/// One of the flags that describe what is compiled.
pub open spec fn is_describing(flag: Seq<char>) -> bool {
    ||| flag == "--crate-name"@
    ||| flag == "--out-dir"@
    ||| flag == "--extern"@
    ||| flag == "--emit"@
    ||| flag == "--crate-type"@
}

/// What `flag` is said to be, if it is one that takes a single value.
pub open spec fn said_of(u: UnitView, flag: Seq<char>) -> Seq<char> {
    if flag == "--crate-name"@ {
        u.crate_name
    } else if flag == "--out-dir"@ {
        u.out_dir
    } else if flag == "--emit"@ {
        u.emit
    } else {
        u.crate_type
    }
}

/// The units differ at most in what is said of `flag`, and in the list of arguments.
pub open spec fn same_but_for(u: UnitView, v: UnitView, flag: Seq<char>) -> bool {
    &&& flag == "--crate-name"@ || u.crate_name == v.crate_name
    &&& flag == "--out-dir"@ || u.out_dir == v.out_dir
    &&& flag == "--extern"@ || u.externs == v.externs
    &&& flag == "--emit"@ || u.emit == v.emit
    &&& flag == "--crate-type"@ || u.crate_type == v.crate_type
    &&& flag.len() == 0 || u.src == v.src
    &&& u.cwd == v.cwd
    &&& u.env == v.env
}

proof fn lemma_flags_are_distinct()
    ensures
        "--crate-name"@ != "--out-dir"@,
        "--crate-name"@ != "--extern"@,
        "--crate-name"@ != "--emit"@,
        "--crate-name"@ != "--crate-type"@,
        "--out-dir"@ != "--extern"@,
        "--out-dir"@ != "--emit"@,
        "--out-dir"@ != "--crate-type"@,
        "--extern"@ != "--emit"@,
        "--extern"@ != "--crate-type"@,
        "--emit"@ != "--crate-type"@,
        forall|flag: Seq<char>| #[trigger]
            is_describing(flag) ==> flag.len() > 0 && flag[0] == '-' && !flag.contains('='),
{
    reveal_strlit("--crate-name");
    reveal_strlit("--out-dir");
    reveal_strlit("--extern");
    reveal_strlit("--emit");
    reveal_strlit("--crate-type");
    assert("--crate-name"@[8] == 'n');
    assert("--crate-type"@[8] == 't');
    assert("--out-dir"@[2] == 'o');
    assert("--extern"@[3] == 'x');
    assert("--emit"@[3] == 'm');
    assert("--crate-name"@[2] == 'c');
    assert("--crate-type"@[2] == 'c');
}

/// A flag with its value, in front of other arguments.
proof fn lemma_valued_in_front(
    rustc: Seq<char>,
    flag: Seq<char>,
    value: Seq<char>,
    rest: Seq<Seq<char>>,
)
    requires
        is_describing(flag),
    ensures
        ({
            let t = Token { flag, value };
            let ts = recorder::tokens(and_then(rustc, rest), 1);
            &&& recorder::tokens(and_then(rustc, and_then(flag, and_then(value, rest))), 1)
                == seq![t] + ts
            &&& recorder::tokens(and_then(rustc, and_then(flag + seq!['='] + value, rest)), 1)
                == seq![t] + ts
        }),
{
    lemma_flags_are_distinct();
    let plain = and_then(rustc, rest);
    let two = and_then(rustc, and_then(flag, and_then(value, rest)));
    assert(two[1] == flag);
    assert(two[2] == value);
    assert(two.skip(3) =~= plain.skip(1));
    lemma_tokens_shift(two, 3, plain, 1);
    let written = flag + seq!['='] + value;
    let one = and_then(rustc, and_then(written, rest));
    assert(one[1] == written);
    assert(written[flag.len() as int] == '=');
    assert(written.contains('='));
    if recorder::is_valued(written) {
        assert(is_describing(written));
    }
    texts::law_cut_first(flag, '=', value, written);
    assert(one.skip(2) =~= plain.skip(1));
    lemma_tokens_shift(one, 2, plain, 1);
}

/// A flag that takes a single value says it of the unit, in either form, unless a later
/// use says otherwise; nothing else about the unit changes.
pub proof fn law_flags_describe_the_unit(
    rustc: Seq<char>,
    flag: Seq<char>,
    value: Seq<char>,
    rest: Seq<Seq<char>>,
    cwd: Seq<char>,
    env: Seq<(Seq<char>, Seq<char>)>,
)
    requires
        is_describing(flag),
        flag != "--extern"@,
    ensures
        ({
            let plain = recorder::unit_of(and_then(rustc, rest), cwd, env);
            let two = recorder::unit_of(
                and_then(rustc, and_then(flag, and_then(value, rest))),
                cwd,
                env,
            );
            let one = recorder::unit_of(
                and_then(rustc, and_then(flag + seq!['='] + value, rest)),
                cwd,
                env,
            );
            &&& same_but_for(two, plain, flag) && same_but_for(one, plain, flag)
            &&& said_of(one, flag) == said_of(two, flag)
            &&& is_unused(flag, rest) ==> said_of(two, flag) == value
            &&& said_of(plain, flag).len() > 0 ==> said_of(two, flag) == said_of(plain, flag)
        }),
{
    lemma_flags_are_distinct();
    lemma_valued_in_front(rustc, flag, value, rest);
    let t = Token { flag, value };
    let ts = recorder::tokens(and_then(rustc, rest), 1);
    lemma_token_in_front(t, ts, "--crate-name"@);
    lemma_token_in_front(t, ts, "--out-dir"@);
    lemma_token_in_front(t, ts, "--emit"@);
    lemma_token_in_front(t, ts, "--crate-type"@);
    assert(recorder::extern_path(t) is None);
    assert(Seq::<Seq<char>>::empty() + recorder::extern_paths(ts) =~= recorder::extern_paths(ts));
    if is_unused(flag, rest) {
        assert(and_then(rustc, rest).skip(1) =~= rest);
        lemma_unused_gives_no_token(and_then(rustc, rest), 1, flag);
    }
}

/// `--extern name=path`, in either form, adds exactly that path to the unit's extern
/// paths, whatever the path is; without an `=` it adds none. Nothing else changes.
pub proof fn law_every_extern_path_is_kept(
    rustc: Seq<char>,
    name: Seq<char>,
    path: Seq<char>,
    rest: Seq<Seq<char>>,
    cwd: Seq<char>,
    env: Seq<(Seq<char>, Seq<char>)>,
)
    requires
        !name.contains('='),
    ensures
        ({
            let plain = recorder::unit_of(and_then(rustc, rest), cwd, env);
            let value = name + seq!['='] + path;
            let two = recorder::unit_of(
                and_then(rustc, and_then("--extern"@, and_then(value, rest))),
                cwd,
                env,
            );
            let one = recorder::unit_of(
                and_then(rustc, and_then("--extern"@ + seq!['='] + value, rest)),
                cwd,
                env,
            );
            let bare = recorder::unit_of(
                and_then(rustc, and_then("--extern"@, and_then(name, rest))),
                cwd,
                env,
            );
            &&& two.externs == seq![path] + plain.externs
            &&& one.externs == seq![path] + plain.externs
            &&& bare.externs == plain.externs
            &&& same_but_for(two, plain, "--extern"@)
            &&& same_but_for(one, plain, "--extern"@)
            &&& same_but_for(bare, plain, "--extern"@)
        }),
{
    lemma_flags_are_distinct();
    let flag = "--extern"@;
    let value = name + seq!['='] + path;
    assert(is_describing(flag));
    lemma_valued_in_front(rustc, flag, value, rest);
    lemma_valued_in_front(rustc, flag, name, rest);
    texts::law_cut_first(name, '=', path, name);
    let ts = recorder::tokens(and_then(rustc, rest), 1);
    let t = Token { flag, value };
    let b = Token { flag, value: name };
    lemma_token_in_front(t, ts, "--crate-name"@);
    lemma_token_in_front(t, ts, "--out-dir"@);
    lemma_token_in_front(t, ts, "--emit"@);
    lemma_token_in_front(t, ts, "--crate-type"@);
    lemma_token_in_front(b, ts, "--crate-name"@);
    lemma_token_in_front(b, ts, "--out-dir"@);
    lemma_token_in_front(b, ts, "--emit"@);
    lemma_token_in_front(b, ts, "--crate-type"@);
    assert(Seq::<Seq<char>>::empty() + recorder::extern_paths(ts) =~= recorder::extern_paths(ts));
}

/// The arguments of `--extern name=path` pairs.
pub open spec fn extern_args(names: Seq<Seq<char>>, found: Seq<Seq<char>>) -> Seq<Seq<char>>
    decreases names.len(),
{
    if names.len() == 0 || found.len() == 0 {
        Seq::empty()
    } else {
        and_then(
            "--extern"@,
            and_then(
                names[0] + seq!['='] + found[0],
                extern_args(names.drop_first(), found.drop_first()),
            ),
        )
    }
}

/// A unit has as many extern paths as its arguments give, in their order.
pub proof fn law_extern_paths_keep_their_order(
    rustc: Seq<char>,
    names: Seq<Seq<char>>,
    found: Seq<Seq<char>>,
    cwd: Seq<char>,
    env: Seq<(Seq<char>, Seq<char>)>,
)
    requires
        names.len() == found.len(),
        forall|i: int| 0 <= i < names.len() ==> !(#[trigger] names[i]).contains('='),
    ensures
        recorder::unit_of(and_then(rustc, extern_args(names, found)), cwd, env).externs == found,
    decreases names.len(),
{
    if names.len() == 0 {
        law_nothing_is_said_without_arguments(rustc, cwd, env);
        assert(and_then(rustc, extern_args(names, found)) =~= seq![rustc]);
        assert(found =~= Seq::<Seq<char>>::empty());
    } else {
        let fewer = names.drop_first();
        let later = found.drop_first();
        assert forall|i: int| 0 <= i < fewer.len() implies !(#[trigger] fewer[i]).contains('=') by {
            assert(fewer[i] == names[i + 1]);
        }
        law_extern_paths_keep_their_order(rustc, fewer, later, cwd, env);
        law_every_extern_path_is_kept(
            rustc,
            names[0],
            found[0],
            extern_args(fewer, later),
            cwd,
            env,
        );
        assert(seq![found[0]] + later =~= found);
    }
}

/// An argument that is no flag is the source file, if it is the first; a flag of another
/// kind says nothing.
pub proof fn law_other_arguments(
    rustc: Seq<char>,
    arg: Seq<char>,
    rest: Seq<Seq<char>>,
    cwd: Seq<char>,
    env: Seq<(Seq<char>, Seq<char>)>,
)
    requires
        arg.len() > 0,
        !is_describing(arg),
        forall|flag: Seq<char>, v: Seq<char>|
            is_describing(flag) ==> arg != #[trigger] (flag + seq!['='] + v),
    ensures
        ({
            let plain = recorder::unit_of(and_then(rustc, rest), cwd, env);
            let with = recorder::unit_of(and_then(rustc, and_then(arg, rest)), cwd, env);
            &&& arg[0] == '-' ==> same_but_for(with, plain, "-"@) && with.src == plain.src
            &&& arg[0] != '-' ==> same_but_for(with, plain, Seq::empty()) && with.src == arg
        }),
{
    lemma_flags_are_distinct();
    reveal_strlit("-");
    let plain = and_then(rustc, rest);
    let more = and_then(rustc, and_then(arg, rest));
    assert(more[1] == arg);
    assert(more.skip(2) =~= plain.skip(1));
    lemma_tokens_shift(more, 2, plain, 1);
    lemma_cut_is_whole(arg, '=');
    match text::cut_first(arg, '=') {
        Some((flag, v)) => {
            if recorder::is_valued(flag) {
                assert(is_describing(flag));
                assert(arg == flag + seq!['='] + v);
            }
        },
        None => {},
    }
    assert(!recorder::is_valued(arg)) by {
        if recorder::is_valued(arg) {
            assert(is_describing(arg));
        }
    }
    let ts = recorder::tokens(plain, 1);
    if arg[0] != '-' {
        let t = Token { flag: Seq::empty(), value: arg };
        assert(recorder::single_token(arg) == Some(t));
        assert(is_describing("--crate-name"@) && is_describing("--out-dir"@));
        assert(is_describing("--emit"@) && is_describing("--crate-type"@));
        assert(is_describing("--extern"@));
        lemma_token_in_front(t, ts, "--crate-name"@);
        lemma_token_in_front(t, ts, "--out-dir"@);
        lemma_token_in_front(t, ts, "--emit"@);
        lemma_token_in_front(t, ts, "--crate-type"@);
        assert(Seq::<Seq<char>>::empty() + recorder::extern_paths(ts) =~= recorder::extern_paths(
            ts,
        ));
    } else {
        assert(recorder::single_token(arg) is None);
    }
}

/// Without arguments nothing is said of a unit; the arguments, the directory and the
/// environment are kept as they are.
pub proof fn law_nothing_is_said_without_arguments(
    rustc: Seq<char>,
    cwd: Seq<char>,
    env: Seq<(Seq<char>, Seq<char>)>,
)
    ensures
        recorder::unit_of(seq![rustc], cwd, env) == (UnitView {
            args: seq![rustc],
            cwd,
            env,
            crate_name: Seq::empty(),
            out_dir: Seq::empty(),
            externs: Seq::empty(),
            emit: Seq::empty(),
            crate_type: Seq::empty(),
            src: Seq::empty(),
        }),
{
    assert(recorder::tokens(seq![rustc], 1) =~= Seq::<Token>::empty());
}

/// The arguments, the directory and the environment of a unit are those it was given.
pub proof fn law_units_keep_their_invocation(
    argv: Seq<Seq<char>>,
    cwd: Seq<char>,
    env: Seq<(Seq<char>, Seq<char>)>,
)
    ensures
        recorder::unit_of(argv, cwd, env).args == argv,
        recorder::unit_of(argv, cwd, env).cwd == cwd,
        recorder::unit_of(argv, cwd, env).env == env,
{
}

// ---------------------------------------------------------------------------
// Phases of recorded units
// ---------------------------------------------------------------------------

/// A file of this name belongs to the crate between its `lib` and its last dash.
pub proof fn law_artifact_names(name: Seq<char>, hash: Seq<char>, extension: Seq<char>)
    requires
        name.len() > 0,
        !name.contains('.'),
        !hash.contains('.'),
        !hash.contains('-'),
    ensures
        recorder::crate_of("lib"@ + name + seq!['-'] + hash + seq!['.'] + extension) == Some(name),
        !text::has_prefix(name, "lib"@) ==> recorder::crate_of(
            name + seq!['-'] + hash + seq!['.'] + extension,
        ) == Some(name),
        !text::has_prefix(name, "lib"@) && !text::has_prefix(name + seq!['-'] + hash, "lib"@)
            ==> recorder::crate_of(name + seq!['-'] + hash) == Some(name),
{
    reveal_strlit("lib");
    let stem = name + seq!['-'] + hash;
    let bare = stem + seq!['.'] + extension;
    let full = "lib"@ + name + seq!['-'] + hash + seq!['.'] + extension;
    assert(full =~= "lib"@ + bare);
    texts::law_prefix(full, "lib"@, bare);
    assert(full.skip(3) =~= bare);
    assert forall|j: int| 0 <= j < stem.len() implies stem[j] != '.' by {
        if j < name.len() {
            assert(name.contains(name[j]));
        } else if j > name.len() {
            assert(hash.contains(hash[j - name.len() - 1]));
        }
    }
    texts::law_cut_first(stem, '.', extension, stem);
    texts::law_cut_last(name, '-', hash, stem);
    assert(name + seq!['-'] + hash + seq!['.'] + extension =~= bare);
    if !text::has_prefix(name, "lib"@) && text::has_prefix(bare, "lib"@) {
        lemma_short_prefix(name, hash, extension);
    }
}

/// What follows the first dot of an artifact's name does not matter, and neither does a
/// `lib` in front. Without a dash behind its first character the name is that of the
/// crate; without any name there is none.
pub proof fn law_plain_artifact_names(
    stem: Seq<char>,
    extension: Seq<char>,
    file: Seq<char>,
    tail: Seq<char>,
)
    requires
        !stem.contains('.'),
        !tail.contains('-') && !tail.contains('.'),
    ensures
        recorder::crate_of("lib"@ + stem + seq!['.'] + extension) == recorder::crate_of(
            "lib"@ + stem,
        ),
        !text::has_prefix(file, "lib"@) ==> recorder::crate_of(file) == recorder::crate_of(
            "lib"@ + file,
        ),
        tail.len() > 0 ==> recorder::crate_of("lib"@ + tail) == Some(tail),
        recorder::crate_of("lib"@ + seq!['-'] + tail) == Some(seq!['-'] + tail),
        recorder::crate_of("lib"@) is None,
{
    reveal_strlit("lib");
    let dotted = stem + seq!['.'] + extension;
    assert("lib"@ + stem + seq!['.'] + extension =~= "lib"@ + dotted);
    assert("lib"@ + seq!['-'] + tail =~= "lib"@ + (seq!['-'] + tail));
    let none = Seq::<char>::empty();
    assert("lib"@ + none =~= "lib"@);
    lemma_behind_lib(dotted);
    lemma_behind_lib(stem);
    lemma_behind_lib(file);
    lemma_behind_lib(tail);
    lemma_behind_lib(seq!['-'] + tail);
    lemma_behind_lib(none);
    texts::law_cut_first(stem, '.', extension, stem);
    text::lemma_cut_none(tail, '.');
    text::lemma_cut_none(tail, '-');
    text::lemma_cut_none(none, '.');
    text::lemma_cut_none(none, '-');
    let dashed = seq!['-'] + tail;
    assert forall|j: int| 0 <= j < dashed.len() implies dashed[j] != '.' by {
        if j > 0 {
            assert(tail.contains(tail[j - 1]));
        }
    }
    text::lemma_cut_none(dashed, '.');
    assert(none + seq!['-'] + tail =~= dashed);
    texts::law_cut_last(none, '-', tail, dashed);
}

proof fn lemma_behind_lib(s: Seq<char>)
    ensures
        text::has_prefix("lib"@ + s, "lib"@),
        ("lib"@ + s).skip(3) == s,
{
    reveal_strlit("lib");
    texts::law_prefix("lib"@ + s, "lib"@, s);
    assert(("lib"@ + s).skip(3) =~= s);
}

/// A dash and a dot are no letters, so what begins with `lib` begins with it before them.
proof fn lemma_short_prefix(name: Seq<char>, hash: Seq<char>, extension: Seq<char>)
    requires
        text::has_prefix(name + seq!['-'] + hash + seq!['.'] + extension, "lib"@),
    ensures
        text::has_prefix(name, "lib"@),
{
    reveal_strlit("lib");
    let bare = name + seq!['-'] + hash + seq!['.'] + extension;
    assert(bare.take(3)[0] == 'l' && bare.take(3)[1] == 'i' && bare.take(3)[2] == 'b');
    assert(bare[0] == 'l' && bare[1] == 'i' && bare[2] == 'b');
    assert(bare[name.len() as int] == '-');
    assert(name.len() >= 3);
    assert(name.take(3) =~= bare.take(3));
}

/// A unit with an extern path waits for the last unit before it whose crate the file name
/// gives and whose output directory it lies in, whatever the file is called.
pub proof fn law_recorded_units_wait_for_files(
    units: Seq<UnitView>,
    i: int,
    e: int,
    p: int,
    dir: Seq<char>,
    file: Seq<char>,
)
    requires
        0 <= p < i < units.len(),
        0 <= e < units[i].externs.len(),
        texts::is_plain_dir(dir),
        texts::is_component(file),
        units[i].externs[e] == dir + seq!['/'] + file,
        units[p].out_dir.len() > 0,
        text::without_trailing(units[p].out_dir, '/') == dir,
        units[p].crate_name.len() > 0,
        recorder::crate_of(file) == Some(units[p].crate_name),
        forall|q: int|
            p < q < i ==> (#[trigger] units[q]).crate_name != units[p].crate_name
                || text::without_trailing(units[q].out_dir, '/') != dir,
    ensures
        recorder::dependencies(units)[i].contains(p),
{
    texts::law_file_in_directory(dir, file);
    assert(recorder::artifact(units[i].externs[e]) == Some((dir, units[p].crate_name)));
    assert(recorder::supplies(units, i, e, p));
    assert(recorder::depends_on(units, i, p));
}

/// A unit with an extern path to an artifact waits for the last unit before it that has
/// this output directory and crate name, whatever the artifact's kind.
pub proof fn law_recorded_units_wait_for_their_externs(
    units: Seq<UnitView>,
    i: int,
    e: int,
    p: int,
    dir: Seq<char>,
    name: Seq<char>,
    hash: Seq<char>,
    extension: Seq<char>,
)
    requires
        0 <= p < i < units.len(),
        0 <= e < units[i].externs.len(),
        texts::is_plain_dir(dir),
        dir.len() > 0,
        name.len() > 0,
        !name.contains('.') && !name.contains('/'),
        !hash.contains('.') && !hash.contains('-') && !hash.contains('/'),
        !extension.contains('/'),
        units[i].externs[e] == dir + seq!['/'] + ("lib"@ + name + seq!['-'] + hash + seq!['.']
            + extension),
        units[p].out_dir == dir,
        units[p].crate_name == name,
        forall|q: int|
            p < q < i ==> (#[trigger] units[q]).crate_name != name || text::without_trailing(
                units[q].out_dir,
                '/',
            ) != dir,
    ensures
        recorder::dependencies(units)[i].contains(p),
{
    let file = "lib"@ + name + seq!['-'] + hash + seq!['.'] + extension;
    lemma_file_is_component(name, hash, extension);
    texts::law_file_in_directory(dir, file);
    law_artifact_names(name, hash, extension);
    assert(text::without_trailing(dir, '/') == dir);
    assert(recorder::artifact(units[i].externs[e]) == Some((dir, name)));
    assert(recorder::supplies(units, i, e, p));
    assert(recorder::depends_on(units, i, p));
}

proof fn lemma_file_is_component(name: Seq<char>, hash: Seq<char>, extension: Seq<char>)
    requires
        !name.contains('/'),
        !hash.contains('/'),
        !extension.contains('/'),
    ensures
        texts::is_component("lib"@ + name + seq!['-'] + hash + seq!['.'] + extension),
{
    reveal_strlit("lib");
    let file = "lib"@ + name + seq!['-'] + hash + seq!['.'] + extension;
    let a = 3 + name.len();
    let b = a + 1 + hash.len();
    assert forall|j: int| 0 <= j < file.len() implies file[j] != '/' by {
        if 3 <= j < a {
            assert(name.contains(name[j - 3]));
            assert(file[j] == name[j - 3]);
        } else if a < j < b {
            assert(hash.contains(hash[j - a - 1]));
            assert(file[j] == hash[j - a - 1]);
        } else if j > b {
            assert(extension.contains(extension[j - b - 1]));
            assert(file[j] == extension[j - b - 1]);
        }
    }
    assert(file[0] == 'l');
    assert(file.len() > 2);
}

/// A unit waits only for what one of its extern paths speaks of: the path lies in that
/// unit's output directory and holds its crate name.
pub proof fn law_recorded_units_wait_for_nothing_else(units: Seq<UnitView>, i: int, p: int)
    requires
        0 <= i < units.len(),
        recorder::dependencies(units)[i].contains(p),
    ensures
        0 <= p < i,
        units[p].crate_name.len() > 0,
        exists|e: int|
            0 <= e < units[i].externs.len() && paths::dir_of(#[trigger] units[i].externs[e])
                == text::without_trailing(units[p].out_dir, '/') && recorder::crate_of(
                paths::name_of(units[i].externs[e])->0,
            ) == Some(units[p].crate_name),
{
    assert(recorder::depends_on(units, i, p));
    let e = choose|e: int|
        0 <= e < units[i].externs.len() && #[trigger] recorder::supplies(units, i, e, p);
    assert(paths::dir_of(units[i].externs[e]) == text::without_trailing(units[p].out_dir, '/'));
}

// ---------------------------------------------------------------------------
// Queued units
// ---------------------------------------------------------------------------

/// A hexadecimal number of at least eight digits.
pub open spec fn is_long_hex(s: Seq<char>) -> bool {
    s.len() >= 8 && forall|i: int|
        0 <= i < s.len() ==> ('0' <= #[trigger] s[i] <= '9' || 'a' <= s[i] <= 'f' || 'A' <= s[i]
            <= 'F')
}

/// The endings of library artifacts.
pub open spec fn is_library_ending(x: Seq<char>) -> bool {
    x == ".rlib"@ || x == ".rmeta"@ || x == ".so"@ || x == ".d"@
}

proof fn lemma_endings(stem: Seq<char>, x: Seq<char>)
    requires
        is_library_ending(x),
    ensures
        builder_v5::without_extension(stem + x) == Some(stem),
{
    reveal_strlit(".rlib");
    reveal_strlit(".rmeta");
    reveal_strlit(".so");
    reveal_strlit(".d");
    let file = stem + x;
    texts::law_suffix(file, x, stem);
    assert(file.take(stem.len() as int) =~= stem);
    assert(file.last() == x.last());
    if text::has_suffix(file, ".rlib"@) {
        assert(file.skip(file.len() - 5).last() == 'b');
    }
    if text::has_suffix(file, ".rmeta"@) {
        assert(file.skip(file.len() - 6).last() == 'a');
    }
    if text::has_suffix(file, ".so"@) {
        assert(file.skip(file.len() - 3).last() == 'o');
    }
    if text::has_suffix(file, ".d"@) {
        assert(file.skip(file.len() - 2).last() == 'd');
    }
}

/// A library artifact of any kind belongs to the crate that its name gives: without the
/// hash if it has one, and whole if what stands behind its last dash is none.
pub proof fn law_library_names(name: Seq<char>, hash: Seq<char>, x: Seq<char>)
    requires
        is_library_ending(x),
    ensures
        is_long_hex(hash) ==> builder_v5::library_of("lib"@ + name + seq!['-'] + hash + x) == Some(
            name,
        ),
        !is_long_hex(hash) && !hash.contains('-') ==> builder_v5::library_of(
            "lib"@ + name + seq!['-'] + hash + x,
        ) == Some(name + seq!['-'] + hash),
        !name.contains('-') ==> builder_v5::library_of("lib"@ + name + x) == Some(name),
{
    let stem = name + seq!['-'] + hash;
    let file = "lib"@ + name + seq!['-'] + hash + x;
    assert(file =~= "lib"@ + stem + x);
    lemma_library_stem(stem, x);
    lemma_library_stem(name, x);
    lemma_hashes(hash);
    if is_long_hex(hash) || !hash.contains('-') {
        lemma_hashed_stem(name, hash);
    }
    if !name.contains('-') {
        text::lemma_cut_none(name, '-');
    }
}

/// The crate that a stem names.
spec fn named_by(stem: Seq<char>) -> Seq<char> {
    match text::cut_last(stem, '-') {
        Some((crate_name, hash)) if builder_v5::is_hash(hash) => crate_name,
        _ => stem,
    }
}

proof fn lemma_hashed_stem(name: Seq<char>, hash: Seq<char>)
    requires
        !hash.contains('-'),
    ensures
        named_by(name + seq!['-'] + hash) == if builder_v5::is_hash(hash) {
            name
        } else {
            name + seq!['-'] + hash
        },
{
    texts::law_cut_last(name, '-', hash, name);
}

proof fn lemma_library_stem(stem: Seq<char>, x: Seq<char>)
    requires
        is_library_ending(x),
    ensures
        builder_v5::library_of("lib"@ + stem + x) == Some(named_by(stem)),
{
    reveal_strlit("lib");
    let file = "lib"@ + stem + x;
    assert(file =~= "lib"@ + (stem + x));
    texts::law_prefix(file, "lib"@, stem + x);
    assert(file.skip(3) =~= stem + x);
    lemma_endings(stem, x);
}

proof fn lemma_hashes(hash: Seq<char>)
    ensures
        is_long_hex(hash) <==> builder_v5::is_hash(hash),
        is_long_hex(hash) ==> !hash.contains('-'),
{
    if builder_v5::is_hash(hash) {
        assert forall|i: int| 0 <= i < hash.len() implies ('0' <= #[trigger] hash[i] <= '9' || 'a'
            <= hash[i] <= 'f' || 'A' <= hash[i] <= 'F') by {
            assert(builder_v5::is_hex(hash[i]));
        }
    }
}

/// What is no library artifact belongs to no crate.
pub proof fn law_other_files_belong_to_no_crate(file: Seq<char>)
    requires
        builder_v5::library_of(file) is Some,
    ensures
        text::has_prefix(file, "lib"@),
        text::has_suffix(file, ".rlib"@) || text::has_suffix(file, ".rmeta"@) || text::has_suffix(
            file,
            ".so"@,
        ) || text::has_suffix(file, ".d"@),
{
    reveal_strlit("lib");
    reveal_strlit(".rlib");
    reveal_strlit(".rmeta");
    reveal_strlit(".so");
    reveal_strlit(".d");
    let stem = file.skip(3);
    if text::has_suffix(stem, ".rlib"@) {
        assert(file.skip(file.len() - 5) =~= stem.skip(stem.len() - 5));
    } else if text::has_suffix(stem, ".rmeta"@) {
        assert(file.skip(file.len() - 6) =~= stem.skip(stem.len() - 6));
    } else if text::has_suffix(stem, ".so"@) {
        assert(file.skip(file.len() - 3) =~= stem.skip(stem.len() - 3));
    } else {
        assert(file.skip(file.len() - 2) =~= stem.skip(stem.len() - 2));
    }
}

/// A queued unit with an extern path waits for every other unit whose crate the file name
/// gives and whose output directory it lies in, wherever that stands in the queue.
pub proof fn law_queued_units_wait_for_files(
    units: Seq<UnitView>,
    i: int,
    e: int,
    p: int,
    dir: Seq<char>,
    file: Seq<char>,
)
    requires
        0 <= i < units.len(),
        0 <= p < units.len(),
        i != p,
        0 <= e < units[i].externs.len(),
        texts::is_plain_dir(dir),
        texts::is_component(file),
        units[i].externs[e] == dir + seq!['/'] + file,
        units[p].out_dir.len() > 0,
        text::without_trailing(units[p].out_dir, '/') == dir,
        units[p].crate_name.len() > 0,
        builder_v5::library_of(file) == Some(units[p].crate_name),
    ensures
        builder_v5::dependencies(units)[i].contains(p),
{
    texts::law_file_in_directory(dir, file);
    assert(builder_v5::library(units[i].externs[e]) == Some((dir, units[p].crate_name)));
    assert(builder_v5::points_at(units[i].externs[e], units[p]));
    assert(builder_v5::depends_on(units, i, p));
}

/// A queued unit with an extern path to an artifact of any kind waits for every other
/// unit that has this output directory and crate name: if both are replayed, it does not
/// start before that one has finished.
pub proof fn law_queued_units_wait_for_their_externs(
    units: Seq<UnitView>,
    runnable: Seq<bool>,
    i: int,
    e: int,
    p: int,
    dir: Seq<char>,
    name: Seq<char>,
    hash: Seq<char>,
    x: Seq<char>,
)
    requires
        0 <= i < units.len(),
        0 <= p < units.len(),
        i != p,
        0 <= e < units[i].externs.len(),
        texts::is_plain_dir(dir),
        dir.len() > 0,
        name.len() > 0,
        !name.contains('/'),
        is_long_hex(hash),
        is_library_ending(x),
        units[i].externs[e] == dir + seq!['/'] + ("lib"@ + name + seq!['-'] + hash + x),
        text::without_trailing(units[p].out_dir, '/') == dir,
        units[p].crate_name == name,
    ensures
        builder_v5::dependencies(units)[i].contains(p),
        runnable.len() == units.len() && runnable[i] && runnable[p] ==> codegen::run_deps(
            builder_v5::dependencies(units),
            runnable,
        )[i].contains(p),
{
    reveal_strlit("lib");
    reveal_strlit(".rlib");
    reveal_strlit(".rmeta");
    reveal_strlit(".so");
    reveal_strlit(".d");
    let file = "lib"@ + name + seq!['-'] + hash + x;
    let a = 3 + name.len();
    let b = a + 1 + hash.len();
    assert forall|j: int| 0 <= j < file.len() implies file[j] != '/' by {
        if 3 <= j < a {
            assert(name.contains(name[j - 3]));
            assert(file[j] == name[j - 3]);
        } else if a < j < b {
            assert(file[j] == hash[j - a - 1]);
        } else if j >= b {
            assert(file[j] == x[j - b]);
        }
    }
    assert(file[0] == 'l');
    texts::law_file_in_directory(dir, file);
    law_library_names(name, hash, x);
    texts::law_without_trailing(units[p].out_dir, '/');
    assert(builder_v5::library(units[i].externs[e]) == Some((dir, name)));
    assert(builder_v5::points_at(units[i].externs[e], units[p]));
    assert(builder_v5::depends_on(units, i, p));
}

/// A queued unit waits only for what one of its extern paths speaks of.
pub proof fn law_queued_units_wait_for_nothing_else(
    units: Seq<UnitView>,
    runnable: Seq<bool>,
    i: int,
    p: int,
)
    requires
        runnable.len() == units.len(),
        0 <= i < units.len(),
        codegen::run_deps(builder_v5::dependencies(units), runnable)[i].contains(p),
    ensures
        0 <= p < units.len(),
        p != i,
        runnable[i] && runnable[p],
        units[p].crate_name.len() > 0,
        exists|e: int|
            0 <= e < units[i].externs.len() && paths::dir_of(#[trigger] units[i].externs[e])
                == text::without_trailing(units[p].out_dir, '/') && builder_v5::library_of(
                paths::name_of(units[i].externs[e])->0,
            ) == Some(units[p].crate_name),
{
    assert(builder_v5::depends_on(units, i, p));
    let e = choose|e: int|
        0 <= e < units[i].externs.len() && builder_v5::points_at(
            #[trigger] units[i].externs[e],
            units[p],
        );
    assert(paths::dir_of(units[i].externs[e]) == text::without_trailing(units[p].out_dir, '/'));
}

/// Replaying sets every captured variable but those that name a jobserver, in their order.
pub proof fn law_replay_keeps_the_environment(env: Seq<(Seq<char>, Seq<char>)>)
    ensures
        builder_v5::without_stale(env) == env.filter(
            |p: (Seq<char>, Seq<char>)| p.0 != "CARGO_MAKEFLAGS"@ && p.0 != "MAKEFLAGS"@,
        ),
    decreases env.len(),
{
    reveal(Seq::filter);
    if env.len() > 0 {
        law_replay_keeps_the_environment(env.drop_last());
    } else {
        assert(builder_v5::without_stale(env) =~= env.filter(
            |p: (Seq<char>, Seq<char>)| p.0 != "CARGO_MAKEFLAGS"@ && p.0 != "MAKEFLAGS"@,
        ));
    }
}

/// A unit is replayed in its directory, and its output directory is made first, wherever
/// these are given.
pub proof fn law_given_directories_are_used(dir: Seq<char>)
    ensures
        dir.len() > 0 ==> builder_v5::if_any(dir) == Some(dir),
        builder_v5::if_any(Seq::empty()) is None,
{
}

/// The label of a unit tells its crate and crate type, or its source file.
pub proof fn law_labels(u: UnitView, dir: Seq<char>, file: Seq<char>)
    ensures
        u.crate_name.len() > 0 && u.crate_type.len() > 0 ==> recorder::label_of(u) == u.crate_name
            + seq![' ', '('] + u.crate_type + seq![')'],
        u.crate_name.len() > 0 && u.crate_type.len() == 0 ==> recorder::label_of(u)
            == u.crate_name,
        u.crate_name.len() == 0 && texts::is_component(file) && texts::is_plain_dir(dir) && u.src
            == dir + seq!['/'] + file ==> recorder::label_of(u) == file,
        u.crate_name.len() == 0 && paths::name_of(u.src) is None ==> recorder::label_of(u)
            == "<unknown>"@,
{
    reveal_strlit(" (");
    reveal_strlit(")");
    assert(" ("@ =~= seq![' ', '(']);
    assert(")"@ =~= seq![')']);
    if texts::is_component(file) && texts::is_plain_dir(dir) {
        texts::law_file_in_directory(dir, file);
    }
}

// ---------------------------------------------------------------------------
// Records
// ---------------------------------------------------------------------------

/// Of the entries behind the first two, the texts are the arguments, in their order.
pub proof fn law_entries_give_their_texts(entries: Seq<json::EntryView>)
    ensures
        recorder::entry_texts(entries) == entries.filter(
            |e: json::EntryView| e.text is Some,
        ).map_values(|e: json::EntryView| e.text->0),
    decreases entries.len(),
{
    reveal(Seq::filter);
    let some = |e: json::EntryView| e.text is Some;
    let get = |e: json::EntryView| e.text->0;
    if entries.len() > 0 {
        law_entries_give_their_texts(entries.drop_last());
        assert(recorder::entry_texts(entries) =~= entries.filter(some).map_values(get));
    } else {
        assert(recorder::entry_texts(entries) =~= entries.filter(some).map_values(get));
    }
}

/// A record of at least three entries with a text among its arguments gives their unit;
/// any other record gives none. The unit has the pairs that were recorded as its
/// environment.
pub proof fn law_records_give_units(
    entries: Seq<json::EntryView>,
    env: Seq<(Seq<char>, Seq<char>)>,
)
    ensures
        ({
            let argv = entries.skip(2).filter(|e: json::EntryView| e.text is Some).map_values(
                |e: json::EntryView| e.text->0,
            );
            &&& entries.len() >= 3 && argv.len() > 0 ==> match recorder::record_unit(entries) {
                Some(u) => {
                    &&& u.args == argv
                    &&& u.cwd == match entries[0].text {
                        Some(t) => t,
                        None => Seq::empty(),
                    }
                    &&& u == recorder::unit_of(argv, u.cwd, u.env)
                    &&& entries[1].items is None ==> u.env == Seq::<(Seq<char>, Seq<char>)>::empty()
                    &&& entries[1].items == Some(
                        env.map_values(|p: (Seq<char>, Seq<char>)| json::pair_item(p.0, p.1)),
                    ) ==> u.env == env
                },
                None => false,
            }
            &&& entries.len() < 3 || argv.len() == 0 ==> recorder::record_unit(entries) is None
        }),
{
    if entries.len() >= 3 {
        law_entries_give_their_texts(entries.skip(2));
        capture::lemma_env_reads_back(env);
    }
}

/// What is read from a record file grows line by line: a blank line adds nothing, a
/// record its unit, and the first line that is no JSON array is an error that names it.
pub proof fn law_record_files_are_read_by_line(lines: Seq<Seq<char>>, line: Seq<char>)
    ensures
        ({
            let n = lines.len();
            let before = recorder::recorded(lines, n);
            let after = recorder::recorded(lines.push(line), n + 1);
            match before {
                Err(e) => after == before,
                Ok(units) => if text::trimmed(line).len() == 0 {
                    after == before
                } else {
                    match json::json_array(text::trimmed(line)) {
                        Ok(Some(entries)) => match recorder::record_unit(entries) {
                            Some(u) => after == Ok::<Seq<UnitView>, Seq<char>>(units.push(u)),
                            None => after == before,
                        },
                        Ok(None) => after == Err::<Seq<UnitView>, Seq<char>>(
                            "line "@ + text::decimal(n + 1) + ": expected JSON array"@,
                        ),
                        Err(e) => after == Err::<Seq<UnitView>, Seq<char>>(
                            "line "@ + text::decimal(n + 1) + ": parse JSON: "@ + e,
                        ),
                    }
                },
            }
        }),
{
    capture::lemma_same_lines(lines, lines.push(line), lines.len());
    assert(lines.push(line)[lines.len() as int] == line);
}

/// The queue is read in the same way, and an object with an `argv` gives its unit too.
pub proof fn law_queues_are_read_by_line(lines: Seq<Seq<char>>, line: Seq<char>)
    ensures
        ({
            let n = lines.len();
            let before = builder_v5::queued(lines, n);
            let after = builder_v5::queued(lines.push(line), n + 1);
            let content = text::trimmed(line);
            match before {
                Err(e) => after == before,
                Ok(units) => if content.len() == 0 {
                    after == before
                } else {
                    match json::json_array(content) {
                        Ok(Some(entries)) => match recorder::record_unit(entries) {
                            Some(u) => after == Ok::<Seq<UnitView>, Seq<char>>(units.push(u)),
                            None => after == before,
                        },
                        Ok(None) => match builder_v5::member_unit(
                            builder_v5::members_of(content),
                        ) {
                            Some(u) => after == Ok::<Seq<UnitView>, Seq<char>>(units.push(u)),
                            None => after == before,
                        },
                        Err(e) => after == Err::<Seq<UnitView>, Seq<char>>(
                            "queue line "@ + text::decimal(n + 1) + ": "@ + e,
                        ),
                    }
                },
            }
        }),
{
    lemma_same_queue(lines, lines.push(line), lines.len());
    assert(lines.push(line)[lines.len() as int] == line);
}

proof fn lemma_same_queue(a: Seq<Seq<char>>, b: Seq<Seq<char>>, k: nat)
    requires
        k <= a.len(),
        k <= b.len(),
        forall|i: int| 0 <= i < k ==> a[i] == b[i],
    ensures
        builder_v5::queued(a, k) == builder_v5::queued(b, k),
    decreases k,
{
    if k > 0 {
        lemma_same_queue(a, b, (k - 1) as nat);
    }
}

/// An object gives the unit of the texts in its `argv`, with its `cwd` and its `env`.
pub proof fn law_objects_give_units(content: Seq<char>, items: Seq<json::ItemView>)
    requires
        json::json_member(content, "argv"@) is Some,
        json::json_member(content, "argv"@)->0.items == Some(items),
    ensures
        ({
            let argv = items.filter(|i: json::ItemView| i.text is Some).map_values(
                |i: json::ItemView| i.text->0,
            );
            match builder_v5::member_unit(builder_v5::members_of(content)) {
                Some(u) => {
                    &&& argv.len() > 0
                    &&& u.args == argv
                    &&& u == recorder::unit_of(argv, u.cwd, u.env)
                    &&& match json::json_member(content, "cwd"@) {
                        Some(e) => match e.text {
                            Some(t) => u.cwd == t,
                            None => u.cwd.len() == 0,
                        },
                        None => u.cwd.len() == 0,
                    }
                    &&& match json::json_member(content, "env"@) {
                        Some(e) => match e.items {
                            Some(pairs) => u.env == recorder::env_pairs(pairs),
                            None => u.env.len() == 0,
                        },
                        None => u.env.len() == 0,
                    }
                },
                None => argv.len() == 0,
            }
        }),
{
    lemma_item_texts(items);
}

proof fn lemma_item_texts(items: Seq<json::ItemView>)
    ensures
        builder_v5::item_texts(items) == items.filter(
            |i: json::ItemView| i.text is Some,
        ).map_values(|i: json::ItemView| i.text->0),
    decreases items.len(),
{
    reveal(Seq::filter);
    let some = |i: json::ItemView| i.text is Some;
    let get = |i: json::ItemView| i.text->0;
    if items.len() > 0 {
        lemma_item_texts(items.drop_last());
        assert(builder_v5::item_texts(items) =~= items.filter(some).map_values(get));
    } else {
        assert(builder_v5::item_texts(items) =~= items.filter(some).map_values(get));
    }
}

/// The environment of a record is read item by item: an item that begins with two texts
/// gives a variable, and any other gives none.
pub proof fn law_environments_are_read_by_item(
    a: Seq<json::ItemView>,
    item: json::ItemView,
    key: Seq<char>,
    value: Seq<char>,
    more: Seq<Option<Seq<char>>>,
)
    ensures
        recorder::env_pairs(Seq::empty()).len() == 0,
        item.texts == Some(seq![Some(key), Some(value)] + more) ==> recorder::env_pairs(
            a.push(item),
        ) == recorder::env_pairs(a).push((key, value)),
        item.texts is None || item.texts->0.len() < 2 || item.texts->0[0] is None
            || item.texts->0[1] is None ==> recorder::env_pairs(a.push(item))
            == recorder::env_pairs(a),
{
    assert(a.push(item).drop_last() =~= a);
    assert(a.push(item).last() == item);
    let ts = seq![Some(key), Some(value)] + more;
    assert(ts[0] == Some(key) && ts[1] == Some(value));
}

/// Record files and queues are read line by line.
pub proof fn law_files_are_made_of_lines(lines: Seq<Seq<char>>)
    requires
        lines.len() > 0,
        forall|i: int| 0 <= i < lines.len() ==> !(#[trigger] lines[i]).contains('\n'),
    ensures
        recorder::recorded_units(text::joined(lines, seq!['\n'])) == recorder::recorded(
            lines,
            lines.len(),
        ),
        builder_v5::queued_units(text::joined(lines, seq!['\n'])) == builder_v5::queued(
            lines,
            lines.len(),
        ),
        recorder::recorded(lines, 0) == Ok::<Seq<UnitView>, Seq<char>>(Seq::empty()),
        builder_v5::queued(lines, 0) == Ok::<Seq<UnitView>, Seq<char>>(Seq::empty()),
{
    text::law_split_undoes_join(lines, '\n');
}

/// The variables by which a build describes itself to a compiler.
pub open spec fn is_build_variable(key: Seq<char>) -> bool {
    ||| key == "CARGO"@
    ||| key == "CARGO_MANIFEST_DIR"@
    ||| key == "CARGO_PKG_NAME"@
    ||| key == "CARGO_PKG_VERSION"@
    ||| key == "CARGO_PKG_AUTHORS"@
    ||| key == "CARGO_PKG_DESCRIPTION"@
    ||| key == "CARGO_PKG_HOMEPAGE"@
    ||| key == "CARGO_PKG_REPOSITORY"@
    ||| key == "CARGO_PKG_LICENSE"@
    ||| key == "CARGO_PKG_LICENSE_FILE"@
    ||| key == "CARGO_PKG_VERSION_MAJOR"@
    ||| key == "CARGO_PKG_VERSION_MINOR"@
    ||| key == "CARGO_PKG_VERSION_PATCH"@
    ||| key == "CARGO_PKG_VERSION_PRE"@
    ||| key == "CARGO_PKG_RUST_VERSION"@
    ||| key == "CARGO_PKG_README"@
    ||| key == "CARGO_CRATE_NAME"@
    ||| key == "CARGO_BIN_NAME"@
    ||| key == "CARGO_PRIMARY_PACKAGE"@
    ||| key == "CARGO_TARGET_TMPDIR"@
    ||| key == "OUT_DIR"@
    ||| key == "LD_LIBRARY_PATH"@
    ||| key == "DYLD_LIBRARY_PATH"@
    ||| key == "DYLD_FALLBACK_LIBRARY_PATH"@
    ||| key == "RUSTC_BOOTSTRAP"@
    ||| key == "RUSTC"@
    ||| key == "RUSTC_WORKSPACE_WRAPPER"@
    ||| key == "TARGET"@
    ||| key == "HOST"@
    ||| key == "PROFILE"@
    ||| key == "OPT_LEVEL"@
    ||| key == "DEBUG"@
    ||| key == "NUM_JOBS"@
    ||| key == "RUSTFLAGS"@
    ||| key == "CARGO_ENCODED_RUSTFLAGS"@
}

/// The variables that are looked for are those of the build, and for the wrapper one more.
pub proof fn law_variables_that_are_looked_for(key: Seq<char>)
    ensures
        capture::cargo_keys().contains(key) <==> is_build_variable(key),
        capture::wrapper_key_names().contains(key) <==> is_build_variable(key) || key
            == "DEP_PROTOBUF_INCLUDE"@,
{
    let keys = capture::cargo_keys();
    let more = capture::wrapper_key_names();
    let last = keys.len() as int;
    lemma_build_variables(key);
    if keys.contains(key) {
        let i = choose|i: int| 0 <= i < keys.len() && keys[i] == key;
        assert(more[i] == key);
    }
    assert(more[last] == "DEP_PROTOBUF_INCLUDE"@);
    if more.contains(key) && key != "DEP_PROTOBUF_INCLUDE"@ {
        let i = choose|i: int| 0 <= i < more.len() && more[i] == key;
        assert(keys[i] == key);
    }
}

proof fn lemma_build_variables(key: Seq<char>)
    ensures
        capture::cargo_keys().contains(key) <==> is_build_variable(key),
{
    let keys = capture::cargo_keys();
    assert(keys.len() == 35);
    if is_build_variable(key) {
        assert(keys[0] == key || keys[1] == key || keys[2] == key || keys[3] == key || keys[4]
            == key || keys[5] == key || keys[6] == key || keys[7] == key || keys[8] == key
            || keys[9] == key || keys[10] == key || keys[11] == key || keys[12] == key || keys[13]
            == key || keys[14] == key || keys[15] == key || keys[16] == key || keys[17] == key
            || keys[18] == key || keys[19] == key || keys[20] == key || keys[21] == key || keys[22]
            == key || keys[23] == key || keys[24] == key || keys[25] == key || keys[26] == key
            || keys[27] == key || keys[28] == key || keys[29] == key || keys[30] == key || keys[31]
            == key || keys[32] == key || keys[33] == key || keys[34] == key);
    }
}

/// A variable that is looked for is captured with the first value that it has, behind
/// those that are looked for before it.
pub proof fn law_variables_are_captured_in_order(
    keys: Seq<Seq<char>>,
    key: Seq<char>,
    vars: Seq<(Seq<char>, Seq<char>)>,
    i: int,
)
    requires
        forall|j: int|
            0 <= j < vars.len() ==> !text::has_prefix((#[trigger] vars[j]).0, "DEP_"@)
                && !text::has_prefix(vars[j].0, "CARGO_CFG_"@) && !text::has_prefix(
                vars[j].0,
                "CARGO_FEATURE_"@,
            ) && !text::has_prefix(vars[j].0, "CARGO_BIN_EXE_"@),
    ensures
        capture::captured(Seq::empty(), vars).len() == 0,
        0 <= i < vars.len() && vars[i].0 == key && (forall|j: int|
            0 <= j < i ==> (#[trigger] vars[j]).0 != key) ==> capture::captured(
            keys.push(key),
            vars,
        ) == capture::captured(keys, vars).push(vars[i]),
        (forall|j: int| 0 <= j < vars.len() ==> (#[trigger] vars[j]).0 != key)
            ==> capture::captured(keys.push(key), vars) == capture::captured(keys, vars),
{
    lemma_nothing_made_up(vars);
    let none = Seq::<(Seq<char>, Seq<char>)>::empty();
    assert(capture::named_vars(keys, vars) + none =~= capture::named_vars(keys, vars));
    assert(keys.push(key).drop_last() =~= keys);
    let now = capture::named_vars(keys.push(key), vars);
    assert(now + none =~= now);
    assert(capture::named_vars(Seq::empty(), vars) + none =~= none);
    if 0 <= i < vars.len() && vars[i].0 == key && (forall|j: int|
        0 <= j < i ==> (#[trigger] vars[j]).0 != key) {
        lemma_first_value(vars, key, i);
    }
    lemma_value_of(vars, key);
}

proof fn lemma_nothing_made_up(vars: Seq<(Seq<char>, Seq<char>)>)
    requires
        forall|j: int|
            0 <= j < vars.len() ==> !capture::is_generated((#[trigger] vars[j]).0),
    ensures
        capture::generated_vars(vars) == Seq::<(Seq<char>, Seq<char>)>::empty(),
    decreases vars.len(),
{
    if vars.len() > 0 {
        assert(!capture::is_generated(vars[vars.len() - 1].0));
        lemma_nothing_made_up(vars.drop_last());
    }
}

proof fn lemma_first_value(vars: Seq<(Seq<char>, Seq<char>)>, key: Seq<char>, i: int)
    requires
        0 <= i < vars.len(),
        vars[i].0 == key,
        forall|j: int| 0 <= j < i ==> (#[trigger] vars[j]).0 != key,
    ensures
        capture::value_of(vars, key) == Some(vars[i].1),
    decreases vars.len(),
{
    if i > 0 {
        let rest = vars.drop_first();
        assert(vars[0].0 != key);
        assert forall|j: int| 0 <= j < i - 1 implies (#[trigger] rest[j]).0 != key by {
            assert(rest[j] == vars[j + 1]);
        }
        lemma_first_value(rest, key, i - 1);
    }
}

/// A captured variable is one of the environment, under a name that is looked for or
/// that build scripts and Cargo make up.
pub proof fn law_captured_variables_are_set(
    keys: Seq<Seq<char>>,
    vars: Seq<(Seq<char>, Seq<char>)>,
    i: int,
)
    requires
        0 <= i < capture::captured(keys, vars).len(),
    ensures
        vars.contains(capture::captured(keys, vars)[i]),
        ({
            let key = capture::captured(keys, vars)[i].0;
            ||| keys.contains(key)
            ||| text::has_prefix(key, "DEP_"@)
            ||| text::has_prefix(key, "CARGO_CFG_"@)
            ||| text::has_prefix(key, "CARGO_FEATURE_"@)
            ||| text::has_prefix(key, "CARGO_BIN_EXE_"@)
        }),
{
    let named = capture::named_vars(keys, vars);
    let all = capture::captured(keys, vars);
    if i < named.len() {
        lemma_named_vars(keys, vars, i);
        assert(all[i] == named[i]);
    } else {
        lemma_generated_vars(vars);
        let made = capture::generated_vars(vars);
        assert(all[i] == made[i - named.len()]);
    }
}

proof fn lemma_value_of(vars: Seq<(Seq<char>, Seq<char>)>, key: Seq<char>)
    ensures
        match capture::value_of(vars, key) {
            Some(v) => vars.contains((key, v)),
            None => forall|i: int| 0 <= i < vars.len() ==> (#[trigger] vars[i]).0 != key,
        },
    decreases vars.len(),
{
    if vars.len() > 0 {
        let rest = vars.drop_first();
        lemma_value_of(rest, key);
        match capture::value_of(vars, key) {
            Some(v) => {
                if vars.first().0 == key {
                    assert(vars[0] == (key, v));
                } else {
                    let i = choose|i: int| 0 <= i < rest.len() && rest[i] == (key, v);
                    assert(vars[i + 1] == (key, v));
                }
            },
            None => {
                assert forall|i: int| 0 <= i < vars.len() implies (#[trigger] vars[i]).0 != key by {
                    if i > 0 {
                        assert(rest[i - 1].0 != key);
                    }
                }
            },
        }
    }
}

proof fn lemma_named_vars(keys: Seq<Seq<char>>, vars: Seq<(Seq<char>, Seq<char>)>, i: int)
    requires
        0 <= i < capture::named_vars(keys, vars).len(),
    ensures
        vars.contains(capture::named_vars(keys, vars)[i]),
        keys.contains(capture::named_vars(keys, vars)[i].0),
    decreases keys.len(),
{
    let front = keys.drop_last();
    let earlier = capture::named_vars(front, vars);
    assert(keys[keys.len() - 1] == keys.last());
    lemma_value_of(vars, keys.last());
    if i < earlier.len() {
        lemma_named_vars(front, vars, i);
        let k = choose|k: int| 0 <= k < front.len() && front[k] == earlier[i].0;
        assert(keys[k] == earlier[i].0);
    }
}

proof fn lemma_generated_vars(vars: Seq<(Seq<char>, Seq<char>)>)
    ensures
        capture::generated_vars(vars) == vars.filter(
            |p: (Seq<char>, Seq<char>)|
                text::has_prefix(p.0, "DEP_"@) || text::has_prefix(p.0, "CARGO_CFG_"@)
                    || text::has_prefix(p.0, "CARGO_FEATURE_"@) || text::has_prefix(
                    p.0,
                    "CARGO_BIN_EXE_"@,
                ),
        ),
        forall|i: int|
            0 <= i < capture::generated_vars(vars).len() ==> vars.contains(
                #[trigger] capture::generated_vars(vars)[i],
            ) && capture::is_generated(capture::generated_vars(vars)[i].0),
    decreases vars.len(),
{
    reveal(Seq::filter);
    let made = capture::generated_vars(vars);
    if vars.len() > 0 {
        let front = vars.drop_last();
        let earlier = capture::generated_vars(front);
        lemma_generated_vars(front);
        assert forall|i: int| 0 <= i < made.len() implies vars.contains(#[trigger] made[i])
            && capture::is_generated(made[i].0) by {
            if i < earlier.len() {
                assert(made[i] == earlier[i]);
                let k = choose|k: int| 0 <= k < front.len() && front[k] == earlier[i];
                assert(vars[k] == earlier[i]);
            } else {
                assert(vars[vars.len() - 1] == made[i]);
            }
        }
    } else {
        assert(made =~= vars.filter(
            |p: (Seq<char>, Seq<char>)|
                text::has_prefix(p.0, "DEP_"@) || text::has_prefix(p.0, "CARGO_CFG_"@)
                    || text::has_prefix(p.0, "CARGO_FEATURE_"@) || text::has_prefix(
                    p.0,
                    "CARGO_BIN_EXE_"@,
                ),
        ));
    }
}

/// Every variable of the environment that is looked for is captured under its name, and
/// every made-up one with its value, behind the others and in their order.
pub proof fn law_what_is_looked_for_is_captured(
    keys: Seq<Seq<char>>,
    vars: Seq<(Seq<char>, Seq<char>)>,
    k: int,
)
    requires
        0 <= k < keys.len(),
    ensures
        ({
            let all = capture::captured(keys, vars);
            let made = vars.filter(
                |p: (Seq<char>, Seq<char>)|
                    text::has_prefix(p.0, "DEP_"@) || text::has_prefix(p.0, "CARGO_CFG_"@)
                        || text::has_prefix(p.0, "CARGO_FEATURE_"@) || text::has_prefix(
                        p.0,
                        "CARGO_BIN_EXE_"@,
                    ),
            );
            &&& made.len() <= all.len()
            &&& all.skip(all.len() - made.len()) == made
            &&& (exists|i: int| 0 <= i < vars.len() && (#[trigger] vars[i]).0 == keys[k])
                ==> exists|i: int| 0 <= i < all.len() && (#[trigger] all[i]).0 == keys[k]
        }),
{
    lemma_generated_vars(vars);
    let named = capture::named_vars(keys, vars);
    let made = capture::generated_vars(vars);
    let all = capture::captured(keys, vars);
    assert(all.skip(named.len() as int) =~= made);
    if exists|i: int| 0 <= i < vars.len() && (#[trigger] vars[i]).0 == keys[k] {
        let j = lemma_named_var_there(keys, vars, k);
        assert(all[j] == named[j]);
    }
}

proof fn lemma_named_var_there(
    keys: Seq<Seq<char>>,
    vars: Seq<(Seq<char>, Seq<char>)>,
    k: int,
) -> (j: int)
    requires
        0 <= k < keys.len(),
        exists|i: int| 0 <= i < vars.len() && (#[trigger] vars[i]).0 == keys[k],
    ensures
        0 <= j < capture::named_vars(keys, vars).len(),
        capture::named_vars(keys, vars)[j].0 == keys[k],
    decreases keys.len(),
{
    let front = keys.drop_last();
    let earlier = capture::named_vars(front, vars);
    lemma_value_of(vars, keys.last());
    if k < front.len() {
        assert(front[k] == keys[k]);
        lemma_named_var_there(front, vars, k)
    } else {
        earlier.len() as int
    }
}

} // verus!
