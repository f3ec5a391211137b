//! Records of rustc invocations, as the wrapper and the coordinator write them.
//!
//! A record is one line: a JSON array of the working directory, the captured
//! environment, the rustc path and its arguments.

use vstd::prelude::*;
use crate::{json, recorder, text};

verus! {

// ---------------------------------------------------------------------------
// Environment
// ---------------------------------------------------------------------------

/// The variables that Cargo sets for rustc and that matter for replaying an
/// invocation.
pub open spec fn cargo_keys() -> Seq<Seq<char>> {
    seq![
        "CARGO"@,
        "CARGO_MANIFEST_DIR"@,
        "CARGO_PKG_NAME"@,
        "CARGO_PKG_VERSION"@,
        "CARGO_PKG_AUTHORS"@,
        "CARGO_PKG_DESCRIPTION"@,
        "CARGO_PKG_HOMEPAGE"@,
        "CARGO_PKG_REPOSITORY"@,
        "CARGO_PKG_LICENSE"@,
        "CARGO_PKG_LICENSE_FILE"@,
        "CARGO_PKG_VERSION_MAJOR"@,
        "CARGO_PKG_VERSION_MINOR"@,
        "CARGO_PKG_VERSION_PATCH"@,
        "CARGO_PKG_VERSION_PRE"@,
        "CARGO_PKG_RUST_VERSION"@,
        "CARGO_PKG_README"@,
        "CARGO_CRATE_NAME"@,
        "CARGO_BIN_NAME"@,
        "CARGO_PRIMARY_PACKAGE"@,
        "CARGO_TARGET_TMPDIR"@,
        "OUT_DIR"@,
        "LD_LIBRARY_PATH"@,
        "DYLD_LIBRARY_PATH"@,
        "DYLD_FALLBACK_LIBRARY_PATH"@,
        "RUSTC_BOOTSTRAP"@,
        "RUSTC"@,
        "RUSTC_WORKSPACE_WRAPPER"@,
        "TARGET"@,
        "HOST"@,
        "PROFILE"@,
        "OPT_LEVEL"@,
        "DEBUG"@,
        "NUM_JOBS"@,
        "RUSTFLAGS"@,
        "CARGO_ENCODED_RUSTFLAGS"@,
    ]
}

/// The variables that the recording wrapper looks for.
pub open spec fn wrapper_key_names() -> Seq<Seq<char>> {
    cargo_keys().push("DEP_PROTOBUF_INCLUDE"@)
}

/// The value of the first variable of this name.
pub open spec fn value_of(vars: Seq<(Seq<char>, Seq<char>)>, key: Seq<char>) -> Option<Seq<char>>
    decreases vars.len(),
{
    if vars.len() == 0 {
        None
    } else if vars.first().0 == key {
        Some(vars.first().1)
    } else {
        value_of(vars.drop_first(), key)
    }
}

/// The variables of these names that are set, in the order of the names.
pub open spec fn named_vars(
    keys: Seq<Seq<char>>,
    vars: Seq<(Seq<char>, Seq<char>)>,
) -> Seq<(Seq<char>, Seq<char>)>
    decreases keys.len(),
{
    if keys.len() == 0 {
        Seq::empty()
    } else {
        match value_of(vars, keys.last()) {
            Some(v) => named_vars(keys.drop_last(), vars).push((keys.last(), v)),
            None => named_vars(keys.drop_last(), vars),
        }
    }
}

/// The names that build scripts and Cargo make up as they go.
pub open spec fn is_generated(key: Seq<char>) -> bool {
    ||| text::has_prefix(key, "DEP_"@)
    ||| text::has_prefix(key, "CARGO_CFG_"@)
    ||| text::has_prefix(key, "CARGO_FEATURE_"@)
    ||| text::has_prefix(key, "CARGO_BIN_EXE_"@)
}

/// The variables with made-up names, in their order.
pub open spec fn generated_vars(
    vars: Seq<(Seq<char>, Seq<char>)>,
) -> Seq<(Seq<char>, Seq<char>)>
    decreases vars.len(),
{
    if vars.len() == 0 {
        Seq::empty()
    } else if is_generated(vars.last().0) {
        generated_vars(vars.drop_last()).push(vars.last())
    } else {
        generated_vars(vars.drop_last())
    }
}

/// What is captured of an environment.
pub open spec fn captured(
    keys: Seq<Seq<char>>,
    vars: Seq<(Seq<char>, Seq<char>)>,
) -> Seq<(Seq<char>, Seq<char>)> {
    named_vars(keys, vars) + generated_vars(vars)
}

/// The variables that the coordinator looks for.
pub fn coordinator_keys() -> (r: Vec<&'static str>)
    ensures
        text::borrowed(r@) == cargo_keys(),
{
    let r = vec![
        "CARGO",
        "CARGO_MANIFEST_DIR",
        "CARGO_PKG_NAME",
        "CARGO_PKG_VERSION",
        "CARGO_PKG_AUTHORS",
        "CARGO_PKG_DESCRIPTION",
        "CARGO_PKG_HOMEPAGE",
        "CARGO_PKG_REPOSITORY",
        "CARGO_PKG_LICENSE",
        "CARGO_PKG_LICENSE_FILE",
        "CARGO_PKG_VERSION_MAJOR",
        "CARGO_PKG_VERSION_MINOR",
        "CARGO_PKG_VERSION_PATCH",
        "CARGO_PKG_VERSION_PRE",
        "CARGO_PKG_RUST_VERSION",
        "CARGO_PKG_README",
        "CARGO_CRATE_NAME",
        "CARGO_BIN_NAME",
        "CARGO_PRIMARY_PACKAGE",
        "CARGO_TARGET_TMPDIR",
        "OUT_DIR",
        "LD_LIBRARY_PATH",
        "DYLD_LIBRARY_PATH",
        "DYLD_FALLBACK_LIBRARY_PATH",
        "RUSTC_BOOTSTRAP",
        "RUSTC",
        "RUSTC_WORKSPACE_WRAPPER",
        "TARGET",
        "HOST",
        "PROFILE",
        "OPT_LEVEL",
        "DEBUG",
        "NUM_JOBS",
        "RUSTFLAGS",
        "CARGO_ENCODED_RUSTFLAGS",
    ];
    assert(text::borrowed(r@) =~= cargo_keys());
    r
}

/// The variables that the recording wrapper looks for.
pub fn wrapper_keys() -> (r: Vec<&'static str>)
    ensures
        text::borrowed(r@) == wrapper_key_names(),
{
    let mut r = coordinator_keys();
    let ghost before = text::borrowed(r@);
    r.push("DEP_PROTOBUF_INCLUDE");
    assert(text::borrowed(r@) =~= before.push("DEP_PROTOBUF_INCLUDE"@));
    r
}

/// Whether the name is made up by a build script or by Cargo.
fn generated(key: &str) -> (r: bool)
    ensures
        r == is_generated(key@),
{
    text::starts_with(key, "DEP_") || text::starts_with(key, "CARGO_CFG_") || text::starts_with(
        key,
        "CARGO_FEATURE_",
    ) || text::starts_with(key, "CARGO_BIN_EXE_")
}

/// The value of the first variable of this name.
fn lookup(vars: &Vec<(String, String)>, key: &str) -> (r: Option<String>)
    ensures
        text::optional(r) == value_of(recorder::pairs(vars@), key@),
{
    let ghost all = recorder::pairs(vars@);
    let mut i: usize = 0;
    assert(all.skip(0) =~= all);
    while i < vars.len()
        invariant
            i <= vars@.len(),
            all == recorder::pairs(vars@),
            value_of(all, key@) == value_of(all.skip(i as int), key@),
        decreases vars@.len() - i,
    {
        let ghost rest = all.skip(i as int);
        assert(rest.first() == (vars@[i as int].0@, vars@[i as int].1@));
        if text::same(vars[i].0.as_str(), key) {
            return Some(vars[i].1.as_str().to_owned());
        }
        assert(rest.drop_first() =~= all.skip(i + 1));
        i += 1;
    }
    assert(all.skip(i as int).len() == 0);
    None
}

/// Captures what an invocation depends on out of its environment: the variables
/// named in `keys`, then those with made-up names.
pub fn capture_env(keys: &Vec<&str>, vars: &Vec<(String, String)>) -> (r: Vec<(String, String)>)
    ensures
        recorder::pairs(r@) == captured(text::borrowed(keys@), recorder::pairs(vars@)),
{
    let ghost kv = text::borrowed(keys@);
    let ghost vv = recorder::pairs(vars@);
    let mut r: Vec<(String, String)> = Vec::new();
    let mut i: usize = 0;
    assert(recorder::pairs(r@) =~= named_vars(kv.take(0), vv));
    while i < keys.len()
        invariant
            i <= keys@.len(),
            kv == text::borrowed(keys@),
            vv == recorder::pairs(vars@),
            recorder::pairs(r@) == named_vars(kv.take(i as int), vv),
        decreases keys@.len() - i,
    {
        let key = keys[i];
        let ghost before = recorder::pairs(r@);
        proof {
            assert(kv.take(i + 1).drop_last() =~= kv.take(i as int));
            assert(kv.take(i + 1).last() == key@);
        }
        match lookup(vars, key) {
            Some(v) => {
                r.push((key.to_owned(), v));
                assert(recorder::pairs(r@) =~= before.push((key@, v@)));
            },
            None => {},
        }
        i += 1;
    }
    assert(kv.take(i as int) =~= kv);
    let ghost named = recorder::pairs(r@);
    let mut j: usize = 0;
    assert(named =~= named + generated_vars(vv.take(0)));
    while j < vars.len()
        invariant
            j <= vars@.len(),
            vv == recorder::pairs(vars@),
            recorder::pairs(r@) == named + generated_vars(vv.take(j as int)),
        decreases vars@.len() - j,
    {
        let ghost before = recorder::pairs(r@);
        let ghost upto = vv.take(j + 1);
        proof {
            assert(upto.drop_last() =~= vv.take(j as int));
            assert(upto.last() == (vars@[j as int].0@, vars@[j as int].1@));
        }
        if generated(vars[j].0.as_str()) {
            r.push((vars[j].0.as_str().to_owned(), vars[j].1.as_str().to_owned()));
            assert(recorder::pairs(r@) =~= before.push(upto.last()));
            assert(recorder::pairs(r@) =~= named + generated_vars(upto));
        }
        j += 1;
    }
    assert(vv.take(j as int) =~= vv);
    r
}

// ---------------------------------------------------------------------------
// Records
// ---------------------------------------------------------------------------

/// The entry that a text makes.
pub open spec fn text_entry(t: Seq<char>) -> json::EntryView {
    json::EntryView { text: Some(t), items: None }
}

/// The entry that an environment makes.
pub open spec fn env_entry(env: Seq<(Seq<char>, Seq<char>)>) -> json::EntryView {
    json::EntryView {
        text: None,
        items: Some(env.map_values(|p: (Seq<char>, Seq<char>)| json::pair_item(p.0, p.1))),
    }
}

/// The entries of an invocation's record.
pub open spec fn record_entries(
    cwd: Seq<char>,
    env: Seq<(Seq<char>, Seq<char>)>,
    argv: Seq<Seq<char>>,
) -> Seq<json::EntryView> {
    seq![text_entry(cwd), env_entry(env)] + argv.map_values(|a: Seq<char>| text_entry(a))
}

/// `line` is the record of an invocation: a single line that reads as its entries.
pub open spec fn is_record(
    line: Seq<char>,
    cwd: Seq<char>,
    env: Seq<(Seq<char>, Seq<char>)>,
    argv: Seq<Seq<char>>,
) -> bool {
    json::stands_in_one_line(line) && json::reads_back(line, record_entries(cwd, env, argv))
}

/// Writes the record of an invocation. `argv` starts with the rustc path.
pub fn write_record(cwd: String, env: Vec<(String, String)>, argv: &Vec<String>) -> (r: Result<
    String,
    String,
>)
    ensures
        match r {
            Ok(line) => is_record(line@, cwd@, recorder::pairs(env@), text::texts(argv@)),
            Err(_) => false,
        },
{
    let ghost av = text::texts(argv@);
    let ghost entries = record_entries(cwd@, recorder::pairs(env@), av);
    let mut values: Vec<json::Written> = Vec::new();
    let ghost cv = cwd@;
    let ghost ev = recorder::pairs(env@);
    proof {
        let w = json::Written::Pairs(env);
        assert(w@.items->0 =~= env_entry(ev).items->0);
        assert(w@ == env_entry(ev));
    }
    values.push(json::Written::Text(cwd));
    values.push(json::Written::Pairs(env));
    let mut i: usize = 0;
    while i < argv.len()
        invariant
            i <= argv@.len(),
            av == text::texts(argv@),
            entries == record_entries(cv, ev, av),
            values@.len() == 2 + i,
            forall|k: int| 0 <= k < 2 + i ==> (#[trigger] values@[k])@ == entries[k],
        decreases argv@.len() - i,
    {
        values.push(json::Written::Text(argv[i].as_str().to_owned()));
        assert(entries[2 + i] == text_entry(av[i as int]));
        i += 1;
    }
    assert(values@.map_values(|w: json::Written| w@) =~= entries);
    json::write_array(&values)
}

proof fn lemma_argv_reads_back(argv: Seq<Seq<char>>)
    ensures
        recorder::entry_texts(argv.map_values(|a: Seq<char>| text_entry(a))) == argv,
    decreases argv.len(),
{
    let entries = argv.map_values(|a: Seq<char>| text_entry(a));
    if argv.len() > 0 {
        lemma_argv_reads_back(argv.drop_last());
        assert(entries.drop_last() =~= argv.drop_last().map_values(
            |a: Seq<char>| text_entry(a),
        ));
        assert(argv.drop_last().push(argv.last()) =~= argv);
    } else {
        assert(argv =~= Seq::<Seq<char>>::empty());
    }
}

/// An environment that was written is read as it was.
pub proof fn lemma_env_reads_back(env: Seq<(Seq<char>, Seq<char>)>)
    ensures
        recorder::env_pairs(
            env.map_values(|p: (Seq<char>, Seq<char>)| json::pair_item(p.0, p.1)),
        ) == env,
    decreases env.len(),
{
    let items = env.map_values(|p: (Seq<char>, Seq<char>)| json::pair_item(p.0, p.1));
    if env.len() > 0 {
        lemma_env_reads_back(env.drop_last());
        assert(items.drop_last() =~= env.drop_last().map_values(
            |p: (Seq<char>, Seq<char>)| json::pair_item(p.0, p.1),
        ));
        assert(env.drop_last().push(env.last()) =~= env);
    } else {
        assert(env =~= Seq::<(Seq<char>, Seq<char>)>::empty());
    }
}

/// A record is read as the unit of the invocation that it was written for.
pub proof fn law_record_reads_back(
    line: Seq<char>,
    cwd: Seq<char>,
    env: Seq<(Seq<char>, Seq<char>)>,
    argv: Seq<Seq<char>>,
    no: nat,
)
    requires
        is_record(line, cwd, env, argv),
        argv.len() > 0,
    ensures
        recorder::record_line(json::json_array(line), no) == Ok::<
            Option<recorder::UnitView>,
            Seq<char>,
        >(Some(recorder::unit_of(argv, cwd, env))),
{
    let entries = record_entries(cwd, env, argv);
    lemma_argv_reads_back(argv);
    lemma_env_reads_back(env);
    assert(entries.skip(2) =~= argv.map_values(|a: Seq<char>| text_entry(a)));
    assert(entries[0] == text_entry(cwd));
    assert(entries[1] == env_entry(env));
}

/// The same lines give the same units.
pub proof fn lemma_same_lines(a: Seq<Seq<char>>, b: Seq<Seq<char>>, k: nat)
    requires
        k <= a.len(),
        k <= b.len(),
        forall|i: int| 0 <= i < k ==> a[i] == b[i],
    ensures
        recorder::recorded(a, k) == recorder::recorded(b, k),
    decreases k,
{
    if k > 0 {
        lemma_same_lines(a, b, (k - 1) as nat);
    }
}

/// The contents are made of whole lines.
pub open spec fn whole_lines(contents: Seq<char>) -> bool {
    contents.len() == 0 || contents.last() == '\n'
}

proof fn lemma_split_appended(contents: Seq<char>, line: Seq<char>)
    requires
        whole_lines(contents),
        !line.contains('\n'),
    ensures
        ({
            let lines = text::split(contents, '\n');
            &&& lines.len() > 0
            &&& lines.last().len() == 0
            &&& text::split(contents + line.push('\n'), '\n') == lines.drop_last().push(line).push(
                Seq::<char>::empty(),
            )
        }),
{
    let nothing = Seq::<char>::empty();
    let body = contents + line;
    assert(contents + line.push('\n') =~= body.push('\n') + nothing);
    text::lemma_split_last(body, nothing, '\n');
    if contents.len() == 0 {
        assert(body =~= line);
        text::lemma_split_one(line, '\n');
        assert(text::split(contents, '\n') =~= seq![nothing]);
        assert(seq![nothing].drop_last().push(line) =~= seq![line]);
    } else {
        let front = contents.drop_last();
        assert(contents =~= front.push('\n') + nothing);
        assert(body =~= front.push('\n') + line);
        text::lemma_split_last(front, nothing, '\n');
        text::lemma_split_last(front, line, '\n');
        assert(text::split(front, '\n').push(nothing).drop_last() =~= text::split(front, '\n'));
    }
}

/// Appending a record to a record file adds its unit to the units that the file
/// gives, and changes nothing else.
pub proof fn law_appended_record_reads_back(
    contents: Seq<char>,
    units: Seq<recorder::UnitView>,
    line: Seq<char>,
    cwd: Seq<char>,
    env: Seq<(Seq<char>, Seq<char>)>,
    argv: Seq<Seq<char>>,
)
    requires
        whole_lines(contents),
        recorder::recorded_units(contents) == Ok::<Seq<recorder::UnitView>, Seq<char>>(units),
        is_record(line, cwd, env, argv),
        argv.len() > 0,
    ensures
        whole_lines(contents + line.push('\n')),
        recorder::recorded_units(contents + line.push('\n')) == Ok::<
            Seq<recorder::UnitView>,
            Seq<char>,
        >(units.push(recorder::unit_of(argv, cwd, env))),
{
    let before = text::split(contents, '\n');
    let after = text::split(contents + line.push('\n'), '\n');
    let k = (before.len() - 1) as nat;
    lemma_split_appended(contents, line);
    assert(after.len() == k + 2);
    assert(after[k as int] == line);
    assert(after[k as int + 1].len() == 0);
    lemma_same_lines(before, after, k);
    assert(text::trimmed(before[k as int]).len() == 0);
    assert(recorder::recorded(before, k) == recorder::recorded(before, k + 1));
    assert(!text::is_white('[') && !text::is_white(']'));
    assert(text::trimmed(line) == line);
    law_record_reads_back(line, cwd, env, argv, k + 1);
    assert(text::trimmed(after[k as int + 1]).len() == 0);
    assert(recorder::recorded(after, k + 1) == Ok::<Seq<recorder::UnitView>, Seq<char>>(
        units.push(recorder::unit_of(argv, cwd, env)),
    ));
    assert(recorder::recorded(after, k + 2) == recorder::recorded(after, k + 1));
}

/// An invocation that is recorded.
pub ghost struct Invocation {
    pub cwd: Seq<char>,
    pub env: Seq<(Seq<char>, Seq<char>)>,
    pub argv: Seq<Seq<char>>,
}

/// The lines one after another, each closed by a line break.
pub open spec fn file_of(lines: Seq<Seq<char>>) -> Seq<char>
    decreases lines.len(),
{
    if lines.len() == 0 {
        Seq::empty()
    } else {
        file_of(lines.drop_last()) + lines.last().push('\n')
    }
}

/// A file of records is read as the units of the recorded invocations, in order.
pub proof fn law_record_file_reads_back(lines: Seq<Seq<char>>, invocations: Seq<Invocation>)
    requires
        lines.len() == invocations.len(),
        forall|i: int|
            0 <= i < lines.len() ==> is_record(
                #[trigger] lines[i],
                invocations[i].cwd,
                invocations[i].env,
                invocations[i].argv,
            ) && invocations[i].argv.len() > 0,
    ensures
        whole_lines(file_of(lines)),
        recorder::recorded_units(file_of(lines)) == Ok::<Seq<recorder::UnitView>, Seq<char>>(
            invocations.map_values(|v: Invocation| recorder::unit_of(v.argv, v.cwd, v.env)),
        ),
    decreases lines.len(),
{
    let units = invocations.map_values(|v: Invocation| recorder::unit_of(v.argv, v.cwd, v.env));
    if lines.len() == 0 {
        let nothing = Seq::<char>::empty();
        assert(text::split(file_of(lines), '\n') =~= seq![nothing]);
        assert(text::trimmed(nothing).len() == 0);
        assert(recorder::recorded(seq![nothing], 0) == Ok::<Seq<recorder::UnitView>, Seq<char>>(
            Seq::empty(),
        ));
        assert(recorder::recorded(seq![nothing], 1) == recorder::recorded(seq![nothing], 0));
        assert(units =~= Seq::<recorder::UnitView>::empty());
    } else {
        let front = lines.drop_last();
        let v = invocations.last();
        assert forall|i: int| 0 <= i < front.len() implies is_record(
            #[trigger] front[i],
            invocations.drop_last()[i].cwd,
            invocations.drop_last()[i].env,
            invocations.drop_last()[i].argv,
        ) && invocations.drop_last()[i].argv.len() > 0 by {
            assert(front[i] == lines[i]);
        }
        law_record_file_reads_back(front, invocations.drop_last());
        let earlier = invocations.drop_last().map_values(
            |v: Invocation| recorder::unit_of(v.argv, v.cwd, v.env),
        );
        assert(lines[lines.len() - 1] == lines.last());
        law_appended_record_reads_back(
            file_of(front),
            earlier,
            lines.last(),
            v.cwd,
            v.env,
            v.argv,
        );
        assert(units =~= earlier.push(recorder::unit_of(v.argv, v.cwd, v.env)));
    }
}

} // verus!
