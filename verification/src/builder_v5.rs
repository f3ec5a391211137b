//! The build with metadata-first pipelining and code generation replayed by the
//! dependency graph.
//!
//! Cargo's forward pass emits `.rmeta` only for crates whose code generation can be
//! deferred, and queues their invocations. The queued units then generate code, each
//! as soon as all that it depends on has finished.

use vstd::prelude::*;
use vstd::hash_map::StringHashMap;
use vstd::string::StringExecFns;
use crate::classifier::ClassifiedUnits;
use crate::codegen::{self, Codegen};
use crate::names::NameSet;
use crate::recorder::{self, RustcUnit, UnitView};
use crate::{json, layers, paths, text, waves};

verus! {

/// What a finished build reports.
#[derive(Debug)]
pub struct BuildV5Summary {
    pub total: std::time::Duration,
    pub cargo_pass: std::time::Duration,
    pub codegen_pass: std::time::Duration,
    pub queued_units: usize,
    pub phases: usize,
    pub max_phase_width: usize,
}

impl Clone for BuildV5Summary {
    fn clone(&self) -> (r: Self)
        ensures
            r == *self,
    {
        BuildV5Summary {
            total: self.total,
            cargo_pass: self.cargo_pass,
            codegen_pass: self.codegen_pass,
            queued_units: self.queued_units,
            phases: self.phases,
            max_phase_width: self.max_phase_width,
        }
    }
}

/// What a build reports. All queued units make up one phase, and nothing queued is
/// no phase.
pub fn summarize(
    total: std::time::Duration,
    cargo_pass: std::time::Duration,
    codegen_pass: std::time::Duration,
    queued_units: usize,
) -> (r: BuildV5Summary)
    ensures
        r.total == total,
        r.cargo_pass == cargo_pass,
        r.codegen_pass == codegen_pass,
        r.queued_units == queued_units,
        r.phases == if queued_units == 0 {
            0int
        } else {
            1int
        },
        r.max_phase_width == queued_units,
{
    let phases: usize = if queued_units == 0 {
        0
    } else {
        1
    };
    BuildV5Summary {
        total,
        cargo_pass,
        codegen_pass,
        queued_units,
        phases,
        max_phase_width: queued_units,
    }
}

// ---------------------------------------------------------------------------
// Programs
// ---------------------------------------------------------------------------

/// Where a program of this package may be found, the first place first: where the
/// variable says, beside this program, and in Cargo's target directories.
pub open spec fn places_of(
    program: Seq<char>,
    var: Option<Seq<char>>,
    exe_dir: Option<Seq<char>>,
) -> Seq<Seq<char>> {
    (match var {
        Some(path) => seq![path],
        None => Seq::empty(),
    }) + (match exe_dir {
        Some(dir) => seq![paths::path_in(dir, program)],
        None => Seq::empty(),
    }) + seq![
        paths::path_in("target/release"@, program),
        paths::path_in("target/debug"@, program),
    ]
}

/// Lists where a program may be found, given what its variable says and the directory
/// of this program.
pub fn program_candidates(
    program: &str,
    var: Option<String>,
    exe_dir: Option<String>,
) -> (r: Vec<String>)
    ensures
        text::texts(r@) == places_of(program@, text::optional(var), text::optional(exe_dir)),
{
    let ghost places = places_of(program@, text::optional(var), text::optional(exe_dir));
    let mut r: Vec<String> = Vec::new();
    if let Some(path) = var {
        r.push(path);
    }
    if let Some(dir) = exe_dir {
        r.push(paths::join(dir.as_str(), program));
    }
    r.push(paths::join("target/release", program));
    r.push(paths::join("target/debug", program));
    assert(text::texts(r@) =~= places);
    r
}

/// Lists where the coordinator may be found.
pub fn coordinator_candidates(var: Option<String>, exe_dir: Option<String>) -> (r: Vec<String>)
    ensures
        text::texts(r@) == places_of(
            "parallel-rustc-coordinator"@,
            text::optional(var),
            text::optional(exe_dir),
        ),
{
    program_candidates("parallel-rustc-coordinator", var, exe_dir)
}

/// `k` is the first place where there is something.
pub open spec fn is_first_existing(exists_at: Seq<bool>, k: int) -> bool {
    &&& 0 <= k < exists_at.len()
    &&& exists_at[k]
    &&& forall|j: int| 0 <= j < k ==> !(#[trigger] exists_at[j])
}

/// Picks the first of the places where there is something.
pub fn locate_program(
    program: &str,
    candidates: &Vec<String>,
    exists_at: &Vec<bool>,
) -> (r: Result<String, String>)
    requires
        exists_at@.len() == candidates@.len(),
    ensures
        match r {
            Ok(path) => exists|k: int| #[trigger]
                is_first_existing(exists_at@, k) && path@ == candidates@[k]@,
            Err(e) => !exists_at@.contains(true) && e@ == program@ + " not found"@,
        },
{
    let mut k: usize = 0;
    while k < candidates.len()
        invariant
            k <= candidates@.len(),
            exists_at@.len() == candidates@.len(),
            forall|j: int| 0 <= j < k ==> !(#[trigger] exists_at@[j]),
        decreases candidates@.len() - k,
    {
        if exists_at[k] {
            assert(is_first_existing(exists_at@, k as int));
            return Ok(candidates[k].as_str().to_owned());
        }
        k += 1;
    }
    let mut e = program.to_owned();
    e.append(" not found");
    Err(e)
}

/// Picks the first of the places where the coordinator is.
pub fn locate_coordinator(candidates: &Vec<String>, exists_at: &Vec<bool>) -> (r: Result<
    String,
    String,
>)
    requires
        exists_at@.len() == candidates@.len(),
    ensures
        match r {
            Ok(path) => exists|k: int| #[trigger]
                is_first_existing(exists_at@, k) && path@ == candidates@[k]@,
            Err(e) => !exists_at@.contains(true) && e@ == "parallel-rustc-coordinator"@
                + " not found"@,
        },
{
    locate_program("parallel-rustc-coordinator", candidates, exists_at)
}

// ---------------------------------------------------------------------------
// Forward pass
// ---------------------------------------------------------------------------

pub open spec fn queue_name(pid: nat, nanos: nat) -> Seq<char> {
    "/tmp/parallel-rustc-queue-"@ + text::decimal(pid) + text::decimal(nanos) + ".jsonl"@
}

/// The path of the queue file of a process that starts at this time.
pub fn queue_file_path(pid: usize, nanos: usize) -> (r: String)
    ensures
        r@ == queue_name(pid as nat, nanos as nat),
{
    let mut r = "/tmp/parallel-rustc-queue-".to_owned();
    r.append(text::decimal_text(pid).as_str());
    r.append(text::decimal_text(nanos).as_str());
    r.append(".jsonl");
    r
}

/// The classification to go by: what was found, or that nothing is known.
pub fn classification_or_none(found: Result<ClassifiedUnits, String>) -> (c: ClassifiedUnits)
    ensures
        match found {
            Ok(f) => c == f,
            Err(_) => {
                &&& c.needs_rlib@ == Set::<Seq<char>>::empty()
                &&& c.defer_codegen@ == Set::<Seq<char>>::empty()
                &&& c.needs_rlib.wf()
                &&& c.defer_codegen.wf()
                &&& c.total_units == 0
            },
        },
{
    match found {
        Ok(f) => f,
        Err(_) => ClassifiedUnits {
            needs_rlib: NameSet::new(),
            defer_codegen: NameSet::new(),
            total_units: 0,
        },
    }
}

/// What the forward pass hands to the coordinator: the names of the crates that need
/// a real `.rlib`, separated by commas.
pub fn needs_rlib_csv(c: &ClassifiedUnits) -> (r: String)
    ensures
        r@ == text::joined(text::texts(c.needs_rlib.names@), ","@),
{
    c.needs_rlib.comma_separated()
}

/// The arguments of cargo's forward pass.
pub open spec fn forward_pass_args(release: bool) -> Seq<Seq<char>> {
    if release {
        seq!["build"@, "--release"@]
    } else {
        seq!["build"@]
    }
}

/// The arguments of cargo's forward pass.
pub fn forward_args(release: bool) -> (args: Vec<String>)
    ensures
        text::texts(args@) == forward_pass_args(release),
{
    let mut args: Vec<String> = Vec::new();
    args.push("build".to_owned());
    if release {
        args.push("--release".to_owned());
    }
    assert(text::texts(args@) =~= forward_pass_args(release));
    args
}

// ---------------------------------------------------------------------------
// Queue
// ---------------------------------------------------------------------------

/// The texts among the items.
pub open spec fn item_texts(items: Seq<json::ItemView>) -> Seq<Seq<char>>
    decreases items.len(),
{
    if items.len() == 0 {
        Seq::empty()
    } else {
        match items.last().text {
            Some(t) => item_texts(items.drop_last()).push(t),
            None => item_texts(items.drop_last()),
        }
    }
}

/// The arguments that a member gives.
pub open spec fn argv_of(entry: Option<json::EntryView>) -> Seq<Seq<char>> {
    match entry {
        Some(e) => match e.items {
            Some(items) => item_texts(items),
            None => Seq::empty(),
        },
        None => Seq::empty(),
    }
}

/// The members of an object that describe an invocation.
pub struct Members {
    pub cwd: Option<json::Entry>,
    pub env: Option<json::Entry>,
    pub argv: Option<json::Entry>,
}

/// What [`Members`] hold.
#[verifier::ext_equal]
pub ghost struct MembersView {
    pub cwd: Option<json::EntryView>,
    pub env: Option<json::EntryView>,
    pub argv: Option<json::EntryView>,
}

impl View for Members {
    type V = MembersView;

    open spec fn view(&self) -> MembersView {
        MembersView {
            cwd: json::optional_entry(self.cwd),
            env: json::optional_entry(self.env),
            argv: json::optional_entry(self.argv),
        }
    }
}

/// The members that describe an invocation, of the object that a text holds.
pub open spec fn members_of(text: Seq<char>) -> MembersView {
    MembersView {
        cwd: json::json_member(text, "cwd"@),
        env: json::json_member(text, "env"@),
        argv: json::json_member(text, "argv"@),
    }
}

/// The unit that the members give. Without arguments they give none.
pub open spec fn member_unit(m: MembersView) -> Option<UnitView> {
    let argv = argv_of(m.argv);
    if argv.len() == 0 {
        None
    } else {
        Some(
            recorder::unit_of(
                argv,
                match m.cwd {
                    Some(e) => recorder::text_or_empty(e),
                    None => Seq::empty(),
                },
                match m.env {
                    Some(e) => recorder::env_of(e),
                    None => Seq::empty(),
                },
            ),
        )
    }
}

/// What line `no` of the queue gives, once it has been read as JSON: the unit of a
/// record, or of an object with members.
pub open spec fn queue_line(
    parsed: Result<Option<Seq<json::EntryView>>, Seq<char>>,
    members: MembersView,
    no: nat,
) -> Result<Option<UnitView>, Seq<char>> {
    match parsed {
        Err(e) => Err("queue line "@ + text::decimal(no) + ": "@ + e),
        Ok(Some(entries)) => Ok(recorder::record_unit(entries)),
        Ok(None) => Ok(member_unit(members)),
    }
}

/// What the first `k` lines of the queue give. Blank lines are passed over, and the
/// first line that cannot be read decides.
pub open spec fn queued(lines: Seq<Seq<char>>, k: nat) -> Result<Seq<UnitView>, Seq<char>>
    decreases k,
{
    if k == 0 {
        Ok(Seq::empty())
    } else {
        let line = text::trimmed(lines[k - 1]);
        match queued(lines, (k - 1) as nat) {
            Err(e) => Err(e),
            Ok(units) => if line.len() == 0 {
                Ok(units)
            } else {
                match queue_line(json::json_array(line), members_of(line), k) {
                    Err(e) => Err(e),
                    Ok(None) => Ok(units),
                    Ok(Some(u)) => Ok(units.push(u)),
                }
            },
        }
    }
}

/// What the whole queue gives.
pub open spec fn queued_units(contents: Seq<char>) -> Result<Seq<UnitView>, Seq<char>> {
    let lines = text::split(contents, '\n');
    queued(lines, lines.len())
}

proof fn lemma_error_stays(lines: Seq<Seq<char>>, j: nat, k: nat)
    requires
        j <= k,
        queued(lines, j) is Err,
    ensures
        queued(lines, k) == queued(lines, j),
    decreases k,
{
    if j < k {
        lemma_error_stays(lines, j, (k - 1) as nat);
    }
}

/// The texts among the items.
fn read_item_texts(items: &Vec<json::Item>) -> (r: Vec<String>)
    ensures
        text::texts(r@) == item_texts(items@.map_values(|i: json::Item| i@)),
{
    let ghost all = items@.map_values(|i: json::Item| i@);
    let mut r: Vec<String> = Vec::new();
    let mut i: usize = 0;
    assert(text::texts(r@) =~= item_texts(all.take(0)));
    while i < items.len()
        invariant
            i <= items@.len(),
            all == items@.map_values(|i: json::Item| i@),
            text::texts(r@) == item_texts(all.take(i as int)),
        decreases items@.len() - i,
    {
        let ghost before = text::texts(r@);
        let ghost upto = all.take(i + 1);
        proof {
            assert(upto.drop_last() =~= all.take(i as int));
            assert(upto.last() == items@[i as int]@);
        }
        match &items[i].text {
            Some(t) => {
                r.push(t.as_str().to_owned());
                assert(text::texts(r@) =~= before.push(t@));
            },
            None => {},
        }
        i += 1;
    }
    assert(all.take(i as int) =~= all);
    r
}

/// Reads the unit that an argument list describes.
pub fn build_unit_from_argv(
    argv: Vec<String>,
    cwd: String,
    env: Vec<(String, String)>,
) -> (u: RustcUnit)
    ensures
        u@ == recorder::unit_of(text::texts(argv@), cwd@, recorder::pairs(env@)),
{
    recorder::build_unit(argv, cwd, env)
}

/// The unit that the members give.
fn read_members(m: &Members) -> (r: Option<RustcUnit>)
    ensures
        recorder::optional_unit(r) == member_unit(m@),
{
    let argv = match &m.argv {
        Some(e) => match &e.items {
            Some(items) => read_item_texts(items),
            None => Vec::new(),
        },
        None => Vec::new(),
    };
    assert(text::texts(argv@) =~= argv_of(m@.argv));
    if argv.len() == 0 {
        return None;
    }
    let cwd = match &m.cwd {
        Some(e) => match &e.text {
            Some(t) => t.as_str().to_owned(),
            None => String::new(),
        },
        None => String::new(),
    };
    let env = match &m.env {
        Some(e) => match &e.items {
            Some(items) => recorder::read_env(items),
            None => Vec::new(),
        },
        None => Vec::new(),
    };
    proof {
        assert(cwd@ =~= match m@.cwd {
            Some(e) => recorder::text_or_empty(e),
            None => Seq::empty(),
        });
        assert(recorder::pairs(env@) =~= match m@.env {
            Some(e) => recorder::env_of(e),
            None => Seq::empty(),
        });
    }
    Some(build_unit_from_argv(argv, cwd, env))
}

/// What line `no` of the queue gives, once it has been read as JSON.
pub fn read_queue_line(
    parsed: Result<Option<Vec<json::Entry>>, String>,
    members: &Members,
    no: usize,
) -> (r: Result<Option<RustcUnit>, String>)
    ensures
        match r {
            Ok(u) => queue_line(json::outcome(parsed), members@, no as nat) == Ok::<
                Option<UnitView>,
                Seq<char>,
            >(recorder::optional_unit(u)),
            Err(e) => queue_line(json::outcome(parsed), members@, no as nat) == Err::<
                Option<UnitView>,
                Seq<char>,
            >(e@),
        },
{
    match parsed {
        Err(e) => {
            let mut m = "queue line ".to_owned();
            m.append(text::decimal_text(no).as_str());
            m.append(": ");
            m.append(e.as_str());
            Err(m)
        },
        Ok(Some(entries)) => Ok(recorder::read_entries(&entries)),
        Ok(None) => Ok(read_members(members)),
    }
}

/// Reads the contents of the queue into units, in the order they were queued.
pub fn parse_queue(contents: &str) -> (r: Result<Vec<RustcUnit>, String>)
    ensures
        match r {
            Ok(units) => queued_units(contents@) == Ok::<Seq<UnitView>, Seq<char>>(
                recorder::unit_views(units@),
            ),
            Err(e) => queued_units(contents@) == Err::<Seq<UnitView>, Seq<char>>(e@),
        },
{
    let lines = text::split_at_char(contents, '\n');
    let n: usize = lines.len();
    let ghost lv = text::texts(lines@);
    let mut units: Vec<RustcUnit> = Vec::new();
    let mut i: usize = 0;
    assert(recorder::unit_views(units@) =~= Seq::<UnitView>::empty());
    while i < n
        invariant
            i <= n,
            n == lines@.len(),
            lv == text::texts(lines@),
            lv == text::split(contents@, '\n'),
            queued(lv, i as nat) == Ok::<Seq<UnitView>, Seq<char>>(recorder::unit_views(units@)),
        decreases n - i,
    {
        let line = text::trim(lines[i].as_str());
        let ghost before = recorder::unit_views(units@);
        assert(line@ == text::trimmed(lv[i as int]));
        if !line.as_str().is_empty() {
            let parsed = json::read_array(line.as_str());
            let members = match &parsed {
                Ok(None) => Members {
                    cwd: json::read_member(line.as_str(), "cwd"),
                    env: json::read_member(line.as_str(), "env"),
                    argv: json::read_member(line.as_str(), "argv"),
                },
                _ => Members { cwd: None, env: None, argv: None },
            };
            match read_queue_line(parsed, &members, i + 1) {
                Ok(Some(u)) => {
                    units.push(u);
                    assert(recorder::unit_views(units@) =~= before.push(u@));
                },
                Ok(None) => {},
                Err(e) => {
                    proof {
                        assert(queued(lv, (i + 1) as nat) == Err::<Seq<UnitView>, Seq<char>>(e@));
                        lemma_error_stays(lv, (i + 1) as nat, n as nat);
                    }
                    return Err(e);
                },
            }
        }
        i += 1;
    }
    Ok(units)
}

/// What reads as a record file reads as the same units from the queue.
pub proof fn law_record_files_are_queues(contents: Seq<char>)
    requires
        recorder::recorded_units(contents) is Ok,
    ensures
        queued_units(contents) == recorder::recorded_units(contents),
{
    let lines = text::split(contents, '\n');
    lemma_recorded_is_queued(lines, lines.len());
}

proof fn lemma_recorded_is_queued(lines: Seq<Seq<char>>, k: nat)
    requires
        k <= lines.len(),
        recorder::recorded(lines, k) is Ok,
    ensures
        queued(lines, k) == recorder::recorded(lines, k),
    decreases k,
{
    if k > 0 {
        lemma_recorded_is_queued(lines, (k - 1) as nat);
    }
}

// ---------------------------------------------------------------------------
// Replay
// ---------------------------------------------------------------------------

/// The variable names a jobserver that is gone by now.
pub open spec fn is_stale(key: Seq<char>) -> bool {
    key == "CARGO_MAKEFLAGS"@ || key == "MAKEFLAGS"@
}

/// The variables without those that name a jobserver.
pub open spec fn without_stale(env: Seq<(Seq<char>, Seq<char>)>) -> Seq<(Seq<char>, Seq<char>)>
    decreases env.len(),
{
    if env.len() == 0 {
        Seq::empty()
    } else if is_stale(env.last().0) {
        without_stale(env.drop_last())
    } else {
        without_stale(env.drop_last()).push(env.last())
    }
}

/// The environment in which a unit is replayed.
pub fn replay_env(unit: &RustcUnit) -> (env: Vec<(String, String)>)
    ensures
        recorder::pairs(env@) == without_stale(unit@.env),
{
    let ghost all = recorder::pairs(unit.env@);
    let mut env: Vec<(String, String)> = Vec::new();
    let mut i: usize = 0;
    assert(recorder::pairs(env@) =~= without_stale(all.take(0)));
    while i < unit.env.len()
        invariant
            i <= unit.env@.len(),
            all == recorder::pairs(unit.env@),
            recorder::pairs(env@) == without_stale(all.take(i as int)),
        decreases unit.env@.len() - i,
    {
        let ghost before = recorder::pairs(env@);
        let ghost upto = all.take(i + 1);
        let key = unit.env[i].0.as_str();
        proof {
            assert(upto.drop_last() =~= all.take(i as int));
            assert(upto.last() == (unit.env@[i as int].0@, unit.env@[i as int].1@));
        }
        if !text::same(key, "CARGO_MAKEFLAGS") && !text::same(key, "MAKEFLAGS") {
            env.push((key.to_owned(), unit.env[i].1.as_str().to_owned()));
            assert(recorder::pairs(env@) =~= before.push(upto.last()));
        }
        i += 1;
    }
    assert(all.take(i as int) =~= all);
    env
}

/// How to run a unit's rustc invocation again.
pub struct Replay {
    pub program: String,
    pub args: Vec<String>,
    /// The directory to make before.
    pub out_dir: Option<String>,
    /// The directory to run in, if not the current one.
    pub cwd: Option<String>,
    /// The variables to set.
    pub env: Vec<(String, String)>,
}

/// The text, if it is not empty.
pub open spec fn if_any(t: Seq<char>) -> Option<Seq<char>> {
    if t.len() == 0 {
        None
    } else {
        Some(t)
    }
}

fn text_if_any(t: &str) -> (r: Option<String>)
    ensures
        text::optional(r) == if_any(t@),
{
    if t.is_empty() {
        None
    } else {
        Some(t.to_owned())
    }
}

/// Plans how to run a unit's rustc invocation again.
pub fn plan_replay(unit: &RustcUnit) -> (r: Result<Replay, String>)
    ensures
        match r {
            Ok(p) => {
                &&& unit@.args.len() > 0
                &&& p.program@ == unit@.args[0]
                &&& text::texts(p.args@) == unit@.args.skip(1)
                &&& text::optional(p.out_dir) == if_any(unit@.out_dir)
                &&& text::optional(p.cwd) == if_any(unit@.cwd)
                &&& recorder::pairs(p.env@) == without_stale(unit@.env)
            },
            Err(e) => unit@.args.len() == 0 && e@ == "empty argv"@,
        },
{
    let n: usize = unit.args.len();
    if n == 0 {
        return Err("empty argv".to_owned());
    }
    let ghost all = text::texts(unit.args@);
    let mut args: Vec<String> = Vec::new();
    let mut i: usize = 1;
    while i < n
        invariant
            1 <= i <= n,
            n == unit.args@.len(),
            all == text::texts(unit.args@),
            args@.len() == i - 1,
            forall|j: int| 0 <= j < i - 1 ==> (#[trigger] args@[j])@ == all[j + 1],
        decreases n - i,
    {
        args.push(unit.args[i].as_str().to_owned());
        i += 1;
    }
    assert(text::texts(args@) =~= all.skip(1));
    Ok(
        Replay {
            program: unit.args[0].as_str().to_owned(),
            args,
            out_dir: text_if_any(unit.out_dir.as_str()),
            cwd: text_if_any(unit.cwd.as_str()),
            env: replay_env(unit),
        },
    )
}

/// No replayed unit is told of a jobserver that is gone.
pub proof fn law_replay_names_no_jobserver(env: Seq<(Seq<char>, Seq<char>)>, i: int)
    requires
        0 <= i < without_stale(env).len(),
    ensures
        !is_stale(without_stale(env)[i].0),
    decreases env.len(),
{
    if i < without_stale(env.drop_last()).len() {
        law_replay_names_no_jobserver(env.drop_last(), i);
    }
}

/// Cuts off the slashes at the end of a directory.
pub fn norm(s: &str) -> (r: String)
    ensures
        r@ == recorder::normal_dir(s@),
{
    text::trim_end_char(s, '/')
}

/// A hexadecimal digit.
pub open spec fn is_hex(c: char) -> bool {
    ||| '0' <= c <= '9'
    ||| 'a' <= c <= 'f'
    ||| 'A' <= c <= 'F'
}

/// The text is what Cargo puts behind a crate's name: eight hexadecimal digits or
/// more.
pub open spec fn is_hash(s: Seq<char>) -> bool {
    s.len() >= 8 && forall|i: int| 0 <= i < s.len() ==> is_hex(#[trigger] s[i])
}

/// The name without the extension of a library artifact.
pub open spec fn without_extension(stem: Seq<char>) -> Option<Seq<char>> {
    if text::has_suffix(stem, ".rlib"@) {
        Some(stem.take(stem.len() - 5))
    } else if text::has_suffix(stem, ".rmeta"@) {
        Some(stem.take(stem.len() - 6))
    } else if text::has_suffix(stem, ".so"@) {
        Some(stem.take(stem.len() - 3))
    } else if text::has_suffix(stem, ".d"@) {
        Some(stem.take(stem.len() - 2))
    } else {
        None
    }
}

/// The crate that a library artifact of this file name belongs to: between `lib` and
/// the extension, without a hash.
pub open spec fn library_of(file_name: Seq<char>) -> Option<Seq<char>> {
    if !text::has_prefix(file_name, "lib"@) {
        None
    } else {
        match without_extension(file_name.skip(3)) {
            Some(name) => match text::cut_last(name, '-') {
                Some((crate_name, hash)) if is_hash(hash) => Some(crate_name),
                _ => Some(name),
            },
            None => None,
        }
    }
}

fn hash_like(s: &str) -> (r: bool)
    ensures
        r == is_hash(s@),
{
    let cs = text::chars_of(s);
    if cs.len() < 8 {
        return false;
    }
    let mut i: usize = 0;
    while i < cs.len()
        invariant
            i <= cs@.len(),
            cs@ == s@,
            forall|j: int| 0 <= j < i ==> is_hex(#[trigger] cs@[j]),
        decreases cs@.len() - i,
    {
        let c = cs[i];
        if !(('0' <= c && c <= '9') || ('a' <= c && c <= 'f') || ('A' <= c && c <= 'F')) {
            assert(!is_hex(s@[i as int]));
            return false;
        }
        i += 1;
    }
    true
}

/// Given a library artifact's file name like `libfoo-0123456789abcdef.rlib`, returns
/// the crate name.
pub fn extract_crate_name(filename: &str) -> (r: Option<String>)
    ensures
        text::optional(r) == library_of(filename@),
{
    proof {
        reveal_strlit("lib");
        reveal_strlit(".rlib");
        reveal_strlit(".rmeta");
        reveal_strlit(".so");
        reveal_strlit(".d");
    }
    let stem = match text::strip_prefix(filename, "lib") {
        Some(s) => s,
        None => {
            return None;
        },
    };
    let name = match text::strip_suffix(stem.as_str(), ".rlib") {
        Some(s) => s,
        None => match text::strip_suffix(stem.as_str(), ".rmeta") {
            Some(s) => s,
            None => match text::strip_suffix(stem.as_str(), ".so") {
                Some(s) => s,
                None => match text::strip_suffix(stem.as_str(), ".d") {
                    Some(s) => s,
                    None => {
                        return None;
                    },
                },
            },
        },
    };
    match text::cut_at_last(name.as_str(), '-') {
        Some((crate_name, hash)) => if hash_like(hash.as_str()) {
            Some(crate_name)
        } else {
            Some(name)
        },
        None => Some(name),
    }
}

/// The output directory and crate name that an extern path points at.
pub open spec fn library(path: Seq<char>) -> Option<(Seq<char>, Seq<char>)> {
    match paths::name_of(path) {
        Some(file) => match library_of(file) {
            Some(name) => Some((paths::dir_of(path), name)),
            None => None,
        },
        None => None,
    }
}

/// The extern path points at what the unit emits.
pub open spec fn points_at(path: Seq<char>, u: UnitView) -> bool {
    match library(path) {
        Some(a) => recorder::emits(u, a),
        None => false,
    }
}

/// Unit `i` depends on unit `p`.
pub open spec fn depends_on(units: Seq<UnitView>, i: int, p: int) -> bool {
    &&& 0 <= p < units.len()
    &&& p != i
    &&& exists|e: int|
        0 <= e < units[i].externs.len() && points_at(#[trigger] units[i].externs[e], units[p])
}

/// What each unit depends on.
pub open spec fn dependencies(units: Seq<UnitView>) -> Seq<Set<int>> {
    Seq::new(
        units.len(),
        |i: int|
            vstd::set_lib::set_int_range(0, units.len() as int).filter(
                |p: int| depends_on(units, i, p),
            ),
    )
}

/// The crate name of a library artifact holds no slash.
proof fn lemma_library_name_has_no_slash(path: Seq<char>)
    ensures
        match library(path) {
            Some(a) => !a.1.contains('/'),
            None => true,
        },
{
    paths::lemma_name_has_no_slash(path);
    match paths::name_of(path) {
        Some(file) => {
            reveal_strlit("lib");
            reveal_strlit(".rlib");
            reveal_strlit(".rmeta");
            reveal_strlit(".so");
            reveal_strlit(".d");
            if text::has_prefix(file, "lib"@) {
                let stem = file.skip(3);
                match without_extension(stem) {
                    Some(name) => {
                        assert forall|k: int| 0 <= k < name.len() implies name[k] != '/' by {
                            assert(name[k] == file[k + 3]);
                            assert(file.contains(file[k + 3]));
                        }
                        text::lemma_cut_last_keeps(name, '-', '/');
                    },
                    None => {},
                }
            }
        },
        None => {},
    }
}

/// Where the artifact that an extern path points at is filed.
fn lookup_key(path: &str) -> (r: Option<String>)
    ensures
        text::optional(r) == match library(path@) {
            Some(a) => Some(recorder::artifact_key(a.0, a.1)),
            None => None,
        },
{
    match paths::file_name(path) {
        Some(file) => match extract_crate_name(file.as_str()) {
            Some(name) => {
                let dir = paths::parent_dir(path);
                Some(recorder::key_text(dir.as_str(), name.as_str()))
            },
            None => None,
        },
        None => None,
    }
}

/// The first `i` units, grouped by where they are filed.
struct Producers {
    group_of: StringHashMap<usize>,
    groups: Vec<Vec<usize>>,
    keys: Ghost<Seq<Seq<char>>>,
}

impl Producers {
    spec fn hold(self, units: Seq<UnitView>, i: int) -> bool {
        let keys = self.keys@;
        &&& keys.len() == self.groups@.len()
        &&& forall|key: Seq<char>| #[trigger]
            self.group_of@.contains_key(key) ==> self.group_of@[key] < keys.len()
                && keys[self.group_of@[key] as int] == key
        &&& forall|g: int|
            0 <= g < keys.len() ==> self.group_of@.contains_key(#[trigger] keys[g])
                && self.group_of@[keys[g]] == g
        &&& forall|g: int, q: usize|
            0 <= g < keys.len() ==> (#[trigger] self.groups@[g]@.contains(q) <==> q < i
                && recorder::is_filed(units[q as int]) && recorder::filed_under(units[q as int])
                == keys[g])
        &&& forall|q: int|
            0 <= q < i && recorder::is_filed(#[trigger] units[q]) ==> self.group_of@.contains_key(
                recorder::filed_under(units[q]),
            )
    }

    /// Groups the units by where they are filed.
    fn of(units: &[RustcUnit]) -> (r: Self)
        ensures
            r.hold(recorder::unit_views(units@), units@.len() as int),
    {
        let n: usize = units.len();
        let ghost uv = recorder::unit_views(units@);
        let mut r = Producers {
            group_of: StringHashMap::new(),
            groups: Vec::new(),
            keys: Ghost(Seq::empty()),
        };
        let mut i: usize = 0;
        while i < n
            invariant
                i <= n,
                n == units@.len(),
                uv == recorder::unit_views(units@),
                r.hold(uv, i as int),
            decreases n - i,
        {
            let u = &units[i];
            let ghost before = r;
            assert(uv[i as int] == u@);
            match recorder::filing_key(u) {
                Some(key) => {
                    let found = match r.group_of.get(key.as_str()) {
                        Some(g) => Some(*g),
                        None => None,
                    };
                    match found {
                        Some(g) => {
                            r.groups[g].push(i);
                            proof {
                                let was = before.groups@[g as int]@;
                                let is = r.groups@[g as int]@;
                                assert(is == was.push(i));
                                assert forall|h: int, q: usize| 0 <= h < r.keys@.len() implies (
                                #[trigger] r.groups@[h]@.contains(q) <==> q < i + 1
                                    && recorder::is_filed(uv[q as int]) && recorder::filed_under(
                                    uv[q as int],
                                ) == r.keys@[h]) by {
                                    assert(before.groups@[h]@.contains(q) <==> q < i
                                        && recorder::is_filed(uv[q as int])
                                        && recorder::filed_under(uv[q as int]) == r.keys@[h]);
                                    if h == g {
                                        if was.contains(q) {
                                            let j = choose|j: int|
                                                0 <= j < was.len() && was[j] == q;
                                            assert(is[j] == q);
                                        }
                                        assert(is[was.len() as int] == i);
                                        if is.contains(q) && q != i {
                                            let j = choose|j: int| 0 <= j < is.len() && is[j] == q;
                                            assert(was[j] == q);
                                        }
                                    } else {
                                        assert(r.groups@[h] == before.groups@[h]);
                                        assert(r.keys@[h] != r.keys@[g as int]);
                                    }
                                }
                            }
                        },
                        None => {
                            let g: usize = r.groups.len();
                            let mut group: Vec<usize> = Vec::new();
                            group.push(i);
                            let ghost kv = key@;
                            r.groups.push(group);
                            r.group_of.insert(key, g);
                            r.keys = Ghost(r.keys@.push(kv));
                            proof {
                                assert(group@ =~= seq![i]);
                                assert forall|h: int, q: usize| 0 <= h < r.keys@.len() implies (
                                #[trigger] r.groups@[h]@.contains(q) <==> q < i + 1
                                    && recorder::is_filed(uv[q as int]) && recorder::filed_under(
                                    uv[q as int],
                                ) == r.keys@[h]) by {
                                    if h < g {
                                        assert(r.groups@[h] == before.groups@[h]);
                                        assert(before.groups@[h]@.contains(q) <==> q < i
                                            && recorder::is_filed(uv[q as int])
                                            && recorder::filed_under(uv[q as int])
                                            == before.keys@[h]);
                                        assert(before.group_of@.contains_key(before.keys@[h]));
                                    } else {
                                        assert(r.groups@[h]@ == seq![i]);
                                        assert(seq![i][0] == i);
                                        if q < i && recorder::is_filed(uv[q as int])
                                            && recorder::filed_under(uv[q as int]) == kv {
                                            assert(before.group_of@.contains_key(kv));
                                        }
                                    }
                                }
                                assert forall|h: int| 0 <= h < r.keys@.len() implies r.group_of@.contains_key(
                                    #[trigger] r.keys@[h],
                                ) && r.group_of@[r.keys@[h]] == h by {
                                    if h < g {
                                        assert(before.group_of@.contains_key(before.keys@[h]));
                                    }
                                }
                            }
                        },
                    }
                },
                None => {
                    assert forall|h: int, q: usize| 0 <= h < r.keys@.len() implies (
                    #[trigger] r.groups@[h]@.contains(q) <==> q < i + 1 && recorder::is_filed(
                        uv[q as int],
                    ) && recorder::filed_under(uv[q as int]) == r.keys@[h]) by {
                        assert(before.groups@[h]@.contains(q) <==> q < i && recorder::is_filed(
                            uv[q as int],
                        ) && recorder::filed_under(uv[q as int]) == r.keys@[h]);
                    }
                },
            }
            i += 1;
        }
        r
    }

    /// The units that unit `i` depends on, each once.
    fn suppliers(&self, units: &[RustcUnit], i: usize) -> (r: Vec<usize>)
        requires
            i < units@.len(),
            self.hold(recorder::unit_views(units@), units@.len() as int),
        ensures
            r@.no_duplicates(),
            forall|p: usize| #[trigger]
                r@.contains(p) <==> depends_on(recorder::unit_views(units@), i as int, p as int),
    {
        let ghost uv = recorder::unit_views(units@);
        let ghost ii = i as int;
        let u = &units[i];
        let mut r: Vec<usize> = Vec::new();
        let mut e: usize = 0;
        assert(uv[ii] == u@);
        while e < u.externs.len()
            invariant
                e <= u.externs@.len(),
                i < units@.len(),
                ii == i,
                uv == recorder::unit_views(units@),
                uv[ii] == u@,
                self.hold(uv, uv.len() as int),
                r@.no_duplicates(),
                forall|p: usize| #[trigger]
                    r@.contains(p) <==> p < uv.len() && p != ii && exists|x: int|
                        0 <= x < e && points_at(#[trigger] uv[ii].externs[x], uv[p as int]),
            decreases u.externs@.len() - e,
        {
            let path = u.externs[e].as_str();
            let ghost before = r@;
            assert(uv[ii].externs[e as int] == path@);
            let ghost mut group: Seq<usize> = Seq::empty();
            match lookup_key(path) {
                Some(key) => {
                    let ghost a = library(path@)->0;
                    proof {
                        lemma_library_name_has_no_slash(path@);
                        assert forall|q: int| 0 <= q < uv.len() implies (points_at(
                            path@,
                            #[trigger] uv[q],
                        ) <==> recorder::is_filed(uv[q]) && recorder::filed_under(uv[q])
                            == key@) by {
                            recorder::lemma_emits_by_key(uv[q], a);
                        }
                    }
                    match self.group_of.get(key.as_str()) {
                        Some(found) => {
                            let g: usize = *found;
                            proof {
                                group = self.groups@[g as int]@;
                                assert forall|q: usize| #[trigger] group.contains(q) <==> q
                                    < uv.len() && points_at(path@, uv[q as int]) by {
                                    assert(self.groups@[g as int]@.contains(q) <==> q < uv.len()
                                        && recorder::is_filed(uv[q as int])
                                        && recorder::filed_under(uv[q as int]) == key@);
                                }
                            }
                            let count: usize = self.groups[g].len();
                            let mut k: usize = 0;
                            assert(group.take(0) =~= Seq::<usize>::empty());
                            while k < count
                                invariant
                                    k <= count,
                                    g < self.groups@.len(),
                                    group == self.groups@[g as int]@,
                                    count == group.len(),
                                    ii == i,
                                    r@.no_duplicates(),
                                    forall|p: usize| #[trigger]
                                        r@.contains(p) <==> before.contains(p) || (p != i
                                            && group.take(k as int).contains(p)),
                                decreases count - k,
                            {
                                let p: usize = self.groups[g][k];
                                let ghost r0 = r@;
                                if p != i && !recorder::holds(&r, p) {
                                    r.push(p);
                                }
                                proof {
                                    let upto = group.take(k as int);
                                    let next = group.take(k + 1);
                                    assert forall|x: usize| #[trigger] r@.contains(x)
                                        <==> before.contains(x) || (x != i && next.contains(x)) by {
                                        assert(r0.contains(x) <==> before.contains(x) || (x != i
                                            && upto.contains(x)));
                                        if upto.contains(x) {
                                            let j = choose|j: int|
                                                0 <= j < upto.len() && upto[j] == x;
                                            assert(next[j] == x);
                                        }
                                        assert(next[k as int] == p);
                                        if next.contains(x) && x != p {
                                            let j = choose|j: int|
                                                0 <= j < next.len() && next[j] == x;
                                            assert(upto[j] == x);
                                        }
                                        if r0.contains(x) {
                                            let j = choose|j: int| 0 <= j < r0.len() && r0[j] == x;
                                            assert(r@[j] == x);
                                        }
                                        if r@.len() > r0.len() {
                                            assert(r@[r0.len() as int] == p);
                                        }
                                        if r@.contains(x) && x != p {
                                            let j = choose|j: int| 0 <= j < r@.len() && r@[j] == x;
                                            assert(r0[j] == x);
                                        }
                                    }
                                }
                                k += 1;
                            }
                            assert(group.take(k as int) =~= group);
                        },
                        None => {
                            assert forall|q: int| 0 <= q < uv.len() implies !points_at(
                                path@,
                                #[trigger] uv[q],
                            ) by {
                                if points_at(path@, uv[q]) {
                                    assert(self.group_of@.contains_key(
                                        recorder::filed_under(uv[q]),
                                    ));
                                }
                            }
                        },
                    }
                },
                None => {},
            }
            proof {
                assert forall|p: usize| #[trigger] r@.contains(p) <==> p < uv.len() && p != ii
                    && exists|x: int|
                    0 <= x < e + 1 && points_at(#[trigger] uv[ii].externs[x], uv[p as int]) by {
                    assert(before.contains(p) <==> p < uv.len() && p != ii && exists|x: int|
                        0 <= x < e && points_at(#[trigger] uv[ii].externs[x], uv[p as int]));
                    if p < uv.len() && p != ii {
                        if points_at(path@, uv[p as int]) {
                            assert(points_at(uv[ii].externs[e as int], uv[p as int]));
                        }
                        if exists|x: int|
                            0 <= x < e + 1 && points_at(
                                #[trigger] uv[ii].externs[x],
                                uv[p as int],
                            ) {
                            let x = choose|x: int|
                                0 <= x < e + 1 && points_at(
                                    #[trigger] uv[ii].externs[x],
                                    uv[p as int],
                                );
                            if x < e {
                                assert(points_at(uv[ii].externs[x], uv[p as int]));
                            }
                        }
                    }
                }
            }
            e += 1;
        }
        r
    }
}

/// The units that each queued unit depends on, each once.
pub fn dependency_lists(units: &[RustcUnit]) -> (deps: Vec<Vec<usize>>)
    ensures
        deps@.len() == units@.len(),
        layers::lists_in_range(layers::lists(deps@)),
        forall|v: int| 0 <= v < deps@.len() ==> (#[trigger] deps@[v])@.no_duplicates(),
        layers::sets_of(layers::lists(deps@)) == dependencies(recorder::unit_views(units@)),
{
    let n: usize = units.len();
    let ghost uv = recorder::unit_views(units@);
    let producers = Producers::of(units);
    let mut deps: Vec<Vec<usize>> = Vec::new();
    let mut i: usize = 0;
    while i < n
        invariant
            i <= n,
            n == units@.len(),
            uv == recorder::unit_views(units@),
            producers.hold(uv, n as int),
            deps@.len() == i,
            forall|v: int| 0 <= v < i ==> (#[trigger] deps@[v])@.no_duplicates(),
            forall|v: int, p: usize|
                0 <= v < i ==> (#[trigger] deps@[v]@.contains(p) <==> depends_on(
                    uv,
                    v,
                    p as int,
                )),
        decreases n - i,
    {
        deps.push(producers.suppliers(units, i));
        i += 1;
    }
    proof {
        let dl = layers::lists(deps@);
        assert forall|v: int, k: int| 0 <= v < dl.len() && 0 <= k < dl[v].len() implies (#[trigger]
        dl[v][k]) < dl.len() by {
            assert(deps@[v]@.contains(dl[v][k]));
        }
        assert forall|v: int| 0 <= v < n implies #[trigger] layers::sets_of(dl)[v]
            == dependencies(uv)[v] by {
            assert forall|p: int| layers::sets_of(dl)[v].contains(p) <==> dependencies(
                uv,
            )[v].contains(p) by {
                if 0 <= p < n {
                    assert(dl[v] == deps@[v]@);
                    assert(deps@[v]@.contains(p as usize) <==> depends_on(uv, v, p));
                }
            }
            assert(layers::sets_of(dl)[v] =~= dependencies(uv)[v]);
        }
        assert(layers::sets_of(dl) =~= dependencies(uv));
    }
    deps
}

/// Sets up the code generation of the queued units. `runnable` tells which of them
/// are replayed; the others count as done.
pub fn plan_codegen(units: &[RustcUnit], runnable: Vec<bool>, jobs: usize) -> (r: Codegen)
    requires
        runnable@.len() == units@.len(),
    ensures
        r.wf(),
        r.waits_for() == codegen::run_deps(
            dependencies(recorder::unit_views(units@)),
            runnable@,
        ),
        r.runnable() == runnable@,
        r.width() == waves::width_of(jobs as nat),
        r.started() == Set::<int>::empty(),
        r.finished() == Set::<int>::empty(),
        r.failure() is None,
        layers::rising(r.ready()),
        forall|v: usize| #[trigger] r.ready().contains(v) <==> r.can_start(v as int),
{
    let deps = dependency_lists(units);
    Codegen::new(&deps, runnable, jobs)
}

} // verus!
