//! Recorded rustc invocations, and the phases in which they can run.
//!
//! A record file holds one JSON array per line:
//!
//! ```text
//! [cwd, [[env_key, env_value], ...], rustc_path, rustc_arg, rustc_arg, ...]
//! ```
//!
//! A unit depends on the unit that emitted an artifact which one of its
//! `--extern name=<path>` arguments points at. Artifacts have disambiguated names
//! such as `libfoo-<hash>.rlib`; consumers are matched to producers by output
//! directory and crate name.

use vstd::prelude::*;
use vstd::hash_map::StringHashMap;
use vstd::string::StringExecFns;
use crate::{json, layers, paths, text};

verus! {

/// A single recorded rustc invocation.
#[derive(Debug, Clone)]
pub struct RustcUnit {
    /// Full argv including the rustc path at index 0.
    pub args: Vec<String>,
    /// Working directory Cargo used when invoking rustc.
    pub cwd: String,
    /// Environment variables Cargo set for this invocation that affect the build.
    pub env: Vec<(String, String)>,
    /// Crate name (from `--crate-name`), empty if absent.
    pub crate_name: String,
    /// Output directory (from `--out-dir`).
    pub out_dir: String,
    /// Extern paths (values from `--extern name=<path>`).
    pub externs: Vec<String>,
    /// Emit kinds (from `--emit`).
    pub emit: String,
    /// Crate types (from `--crate-type`).
    pub crate_type: String,
    /// Source file (first argument that is no flag).
    pub src: String,
}

/// What a [`RustcUnit`] holds.
#[verifier::ext_equal]
pub ghost struct UnitView {
    pub args: Seq<Seq<char>>,
    pub cwd: Seq<char>,
    pub env: Seq<(Seq<char>, Seq<char>)>,
    pub crate_name: Seq<char>,
    pub out_dir: Seq<char>,
    pub externs: Seq<Seq<char>>,
    pub emit: Seq<char>,
    pub crate_type: Seq<char>,
    pub src: Seq<char>,
}

/// The texts of a vector of pairs.
pub open spec fn pairs(v: Seq<(String, String)>) -> Seq<(Seq<char>, Seq<char>)> {
    v.map_values(|p: (String, String)| (p.0@, p.1@))
}

impl View for RustcUnit {
    type V = UnitView;

    open spec fn view(&self) -> UnitView {
        UnitView {
            args: text::texts(self.args@),
            cwd: self.cwd@,
            env: pairs(self.env@),
            crate_name: self.crate_name@,
            out_dir: self.out_dir@,
            externs: text::texts(self.externs@),
            emit: self.emit@,
            crate_type: self.crate_type@,
            src: self.src@,
        }
    }
}

/// What the units of a vector hold.
pub open spec fn unit_views(v: Seq<RustcUnit>) -> Seq<UnitView> {
    v.map_values(|u: RustcUnit| u@)
}

/// The short human label of a unit.
pub open spec fn label_of(u: UnitView) -> Seq<char> {
    if u.crate_name.len() == 0 {
        match paths::name_of(u.src) {
            Some(base) => base,
            None => "<unknown>"@,
        }
    } else if u.crate_type.len() == 0 {
        u.crate_name
    } else {
        u.crate_name + " ("@ + u.crate_type + ")"@
    }
}

impl RustcUnit {
    /// A short human label for logs.
    pub fn label(&self) -> (r: String)
        ensures
            r@ == label_of(self@),
    {
        if self.crate_name.as_str().is_empty() {
            match paths::file_name(self.src.as_str()) {
                Some(base) => base,
                None => "<unknown>".to_owned(),
            }
        } else if self.crate_type.as_str().is_empty() {
            self.crate_name.as_str().to_owned()
        } else {
            let mut r = self.crate_name.as_str().to_owned();
            r.append(" (");
            r.append(self.crate_type.as_str());
            r.append(")");
            r
        }
    }
}

// ---------------------------------------------------------------------------
// Reading an argument list
// ---------------------------------------------------------------------------

/// A flag with its value; an argument that is no flag stands behind the empty flag.
#[verifier::ext_equal]
pub ghost struct Token {
    pub flag: Seq<char>,
    pub value: Seq<char>,
}

/// The flags whose values describe a unit.
pub open spec fn is_valued(flag: Seq<char>) -> bool {
    ||| flag == "--crate-name"@
    ||| flag == "--out-dir"@
    ||| flag == "--extern"@
    ||| flag == "--emit"@
    ||| flag == "--crate-type"@
}

/// A single argument that carries a flag and its value, or is no flag at all.
pub open spec fn single_token(arg: Seq<char>) -> Option<Token> {
    match text::cut_first(arg, '=') {
        Some((flag, value)) if is_valued(flag) => Some(Token { flag, value }),
        _ => if arg.len() > 0 && arg[0] == '-' {
            None
        } else {
            Some(Token { flag: Seq::empty(), value: arg })
        },
    }
}

/// What the arguments from position `i` on say. A flag takes its value from behind
/// its `=` or from the next argument; other flags say nothing.
pub open spec fn tokens(argv: Seq<Seq<char>>, i: int) -> Seq<Token>
    decreases argv.len() - i,
{
    if i < 0 || i >= argv.len() {
        Seq::empty()
    } else if is_valued(argv[i]) {
        if i + 1 < argv.len() {
            seq![Token { flag: argv[i], value: argv[i + 1] }] + tokens(argv, i + 2)
        } else {
            Seq::empty()
        }
    } else {
        match single_token(argv[i]) {
            Some(t) => seq![t] + tokens(argv, i + 1),
            None => tokens(argv, i + 1),
        }
    }
}

/// The value that the last token with this flag gives, or nothing.
pub open spec fn last_value(ts: Seq<Token>, flag: Seq<char>) -> Seq<char>
    decreases ts.len(),
{
    if ts.len() == 0 {
        Seq::empty()
    } else if ts.last().flag == flag {
        ts.last().value
    } else {
        last_value(ts.drop_last(), flag)
    }
}

/// The first text that is not empty and stands behind no flag, or nothing.
pub open spec fn first_word(ts: Seq<Token>) -> Seq<char>
    decreases ts.len(),
{
    if ts.len() == 0 {
        Seq::empty()
    } else {
        let earlier = first_word(ts.drop_last());
        if earlier.len() == 0 && ts.last().flag.len() == 0 {
            ts.last().value
        } else {
            earlier
        }
    }
}

/// The path that an `--extern name=<path>` token gives.
pub open spec fn extern_path(t: Token) -> Option<Seq<char>> {
    if t.flag == "--extern"@ {
        match text::cut_first(t.value, '=') {
            Some((_, path)) => Some(path),
            None => None,
        }
    } else {
        None
    }
}

/// The paths that the `--extern` tokens give, in order.
pub open spec fn extern_paths(ts: Seq<Token>) -> Seq<Seq<char>>
    decreases ts.len(),
{
    if ts.len() == 0 {
        Seq::empty()
    } else {
        match extern_path(ts.last()) {
            Some(path) => extern_paths(ts.drop_last()).push(path),
            None => extern_paths(ts.drop_last()),
        }
    }
}

/// The unit that an argument list describes. Its first entry is the rustc path.
pub open spec fn unit_of(
    argv: Seq<Seq<char>>,
    cwd: Seq<char>,
    env: Seq<(Seq<char>, Seq<char>)>,
) -> UnitView {
    let ts = tokens(argv, 1);
    UnitView {
        args: argv,
        cwd,
        env,
        crate_name: last_value(ts, "--crate-name"@),
        out_dir: last_value(ts, "--out-dir"@),
        externs: extern_paths(ts),
        emit: last_value(ts, "--emit"@),
        crate_type: last_value(ts, "--crate-type"@),
        src: first_word(ts),
    }
}

/// The flags, and that none of them is another or empty.
proof fn lemma_flags_differ()
    ensures
        "--crate-name"@ != "--out-dir"@,
        "--crate-name"@ != "--extern"@,
        "--crate-name"@ != "--emit"@,
        "--crate-name"@ != "--crate-type"@,
        "--out-dir"@ != "--extern"@,
        "--out-dir"@ != "--emit"@,
        "--out-dir"@ != "--crate-type"@,
        "--extern"@ != "--emit"@,
        "--extern"@ != "--crate-type"@,
        "--emit"@ != "--crate-type"@,
        "--crate-name"@.len() > 0,
        "--out-dir"@.len() > 0,
        "--extern"@.len() > 0,
        "--emit"@.len() > 0,
        "--crate-type"@.len() > 0,
{
    reveal_strlit("--crate-name");
    reveal_strlit("--out-dir");
    reveal_strlit("--extern");
    reveal_strlit("--emit");
    reveal_strlit("--crate-type");
    assert("--crate-name"@[2] == 'c' && "--crate-name"@[8] == 'n');
    assert("--crate-type"@[2] == 'c' && "--crate-type"@[8] == 't');
    assert("--out-dir"@[2] == 'o');
    assert("--extern"@[3] == 'x');
    assert("--emit"@[3] == 'm');
}

/// Whether the flag's value describes a unit.
fn valued(flag: &str) -> (r: bool)
    ensures
        r == is_valued(flag@),
{
    text::same(flag, "--crate-name") || text::same(flag, "--out-dir") || text::same(
        flag,
        "--extern",
    ) || text::same(flag, "--emit") || text::same(flag, "--crate-type")
}

/// What has been read of an argument list.
struct Reading {
    crate_name: String,
    out_dir: String,
    externs: Vec<String>,
    emit: String,
    crate_type: String,
    src: String,
}

impl Reading {
    /// The reading holds what these tokens say.
    spec fn holds(self, ts: Seq<Token>) -> bool {
        &&& self.crate_name@ == last_value(ts, "--crate-name"@)
        &&& self.out_dir@ == last_value(ts, "--out-dir"@)
        &&& text::texts(self.externs@) == extern_paths(ts)
        &&& self.emit@ == last_value(ts, "--emit"@)
        &&& self.crate_type@ == last_value(ts, "--crate-type"@)
        &&& self.src@ == first_word(ts)
    }

    /// Takes in one more token.
    fn take(&mut self, flag: &str, value: String, ts: Ghost<Seq<Token>>)
        requires
            old(self).holds(ts@),
        ensures
            final(self).holds(ts@.push(Token { flag: flag@, value: value@ })),
    {
        let ghost t = Token { flag: flag@, value: value@ };
        let ghost longer = ts@.push(t);
        let ghost before = text::texts(self.externs@);
        proof {
            lemma_flags_differ();
            assert(longer.drop_last() =~= ts@);
            assert(longer.last() == t);
        }
        if text::same(flag, "--crate-name") {
            self.crate_name = value;
        } else if text::same(flag, "--out-dir") {
            self.out_dir = value;
        } else if text::same(flag, "--extern") {
            match text::cut_at_first(value.as_str(), '=') {
                Some((_, path)) => {
                    self.externs.push(path);
                    assert(text::texts(self.externs@) =~= before.push(path@));
                },
                None => {},
            }
        } else if text::same(flag, "--emit") {
            self.emit = value;
        } else if text::same(flag, "--crate-type") {
            self.crate_type = value;
        } else if flag.is_empty() && self.src.as_str().is_empty() {
            self.src = value;
        }
    }
}

/// Reads the unit that an argument list describes.
pub fn build_unit(argv: Vec<String>, cwd: String, env: Vec<(String, String)>) -> (u: RustcUnit)
    ensures
        u@ == unit_of(text::texts(argv@), cwd@, pairs(env@)),
{
    let n: usize = argv.len();
    let ghost av = text::texts(argv@);
    let ghost mut done: Seq<Token> = Seq::empty();
    let mut reading = Reading {
        crate_name: String::new(),
        out_dir: String::new(),
        externs: Vec::new(),
        emit: String::new(),
        crate_type: String::new(),
        src: String::new(),
    };
    let mut i: usize = 1;
    proof {
        assert(text::texts(reading.externs@) =~= extern_paths(done));
        assert(reading.crate_name@ =~= Seq::<char>::empty());
        assert(done + tokens(av, 1) =~= tokens(av, 1));
    }
    while i < n
        invariant
            n == argv@.len(),
            av == text::texts(argv@),
            1 <= i,
            i < n || done == tokens(av, 1),
            done + tokens(av, i as int) == tokens(av, 1),
            reading.holds(done),
        decreases n - i,
    {
        let arg = argv[i].as_str();
        let ghost before = done;
        let ghost rest = tokens(av, i as int);
        if valued(arg) {
            if i + 1 < n {
                let value = argv[i + 1].as_str().to_owned();
                reading.take(arg, value, Ghost(done));
                proof {
                    let t = Token { flag: av[i as int], value: av[i + 1] };
                    done = before.push(t);
                    assert(rest =~= seq![t] + tokens(av, i + 2));
                    assert(done + tokens(av, i + 2) =~= before + rest);
                    if i + 2 >= n {
                        assert(done =~= done + tokens(av, i + 2));
                    }
                }
                i += 2;
            } else {
                assert(done =~= done + rest);
                i = n;
                assert(done + tokens(av, i as int) =~= done);
            }
        } else {
            let (flag, value, says) = match text::cut_at_first(arg, '=') {
                Some((flag, value)) => if valued(flag.as_str()) {
                    (flag, value, true)
                } else {
                    (String::new(), arg.to_owned(), !text::starts_with(arg, "-"))
                },
                None => (String::new(), arg.to_owned(), !text::starts_with(arg, "-")),
            };
            proof {
                reveal_strlit("-");
                assert("-"@ =~= seq!['-']);
                if arg@.len() > 0 {
                    assert(arg@.take(1) =~= seq![arg@[0]]);
                    assert(seq![arg@[0]][0] == arg@[0]);
                    assert(seq!['-'][0] == '-');
                }
            }
            if says {
                let ghost t = Token { flag: flag@, value: value@ };
                assert(single_token(arg@) == Some(t));
                reading.take(flag.as_str(), value, Ghost(done));
                proof {
                    done = before.push(t);
                    assert(rest =~= seq![t] + tokens(av, i + 1));
                    assert(done + tokens(av, i + 1) =~= before + rest);
                }
            }
            assert(!says ==> single_token(arg@) is None);
            i += 1;
            proof {
                if i >= n {
                    assert(done =~= done + tokens(av, i as int));
                }
            }
        }
    }
    proof {
        if n <= 1 {
            assert(done =~= tokens(av, 1));
        }
    }
    RustcUnit {
        args: argv,
        cwd,
        env,
        crate_name: reading.crate_name,
        out_dir: reading.out_dir,
        externs: reading.externs,
        emit: reading.emit,
        crate_type: reading.crate_type,
        src: reading.src,
    }
}

// ---------------------------------------------------------------------------
// Reading records
// ---------------------------------------------------------------------------

/// The variable that an array of a key and a value gives.
pub open spec fn env_pair(item: json::ItemView) -> Option<(Seq<char>, Seq<char>)> {
    match item.texts {
        Some(ts) => if ts.len() >= 2 {
            match (ts[0], ts[1]) {
                (Some(k), Some(v)) => Some((k, v)),
                _ => None,
            }
        } else {
            None
        },
        None => None,
    }
}

/// The variables that a list of arrays gives; what gives none is passed over.
pub open spec fn env_pairs(items: Seq<json::ItemView>) -> Seq<(Seq<char>, Seq<char>)>
    decreases items.len(),
{
    if items.len() == 0 {
        Seq::empty()
    } else {
        match env_pair(items.last()) {
            Some(p) => env_pairs(items.drop_last()).push(p),
            None => env_pairs(items.drop_last()),
        }
    }
}

/// The variables that an entry gives.
pub open spec fn env_of(entry: json::EntryView) -> Seq<(Seq<char>, Seq<char>)> {
    match entry.items {
        Some(items) => env_pairs(items),
        None => Seq::empty(),
    }
}

/// The text of an entry, or nothing.
pub open spec fn text_or_empty(entry: json::EntryView) -> Seq<char> {
    match entry.text {
        Some(t) => t,
        None => Seq::empty(),
    }
}

/// The texts among the entries.
pub open spec fn entry_texts(entries: Seq<json::EntryView>) -> Seq<Seq<char>>
    decreases entries.len(),
{
    if entries.len() == 0 {
        Seq::empty()
    } else {
        match entries.last().text {
            Some(t) => entry_texts(entries.drop_last()).push(t),
            None => entry_texts(entries.drop_last()),
        }
    }
}

/// The unit that a record gives: its working directory, its environment, and its
/// arguments. A record without arguments gives none.
pub open spec fn record_unit(entries: Seq<json::EntryView>) -> Option<UnitView> {
    if entries.len() < 3 {
        None
    } else {
        let argv = entry_texts(entries.skip(2));
        if argv.len() == 0 {
            None
        } else {
            Some(unit_of(argv, text_or_empty(entries[0]), env_of(entries[1])))
        }
    }
}

/// What line `no` of a record file gives, once it has been read as JSON.
pub open spec fn record_line(
    parsed: Result<Option<Seq<json::EntryView>>, Seq<char>>,
    no: nat,
) -> Result<Option<UnitView>, Seq<char>> {
    match parsed {
        Err(e) => Err("line "@ + text::decimal(no) + ": parse JSON: "@ + e),
        Ok(None) => Err("line "@ + text::decimal(no) + ": expected JSON array"@),
        Ok(Some(entries)) => Ok(record_unit(entries)),
    }
}

/// What the first `k` lines of a record file give. Blank lines are passed over, and
/// the first line that cannot be read decides.
pub open spec fn recorded(lines: Seq<Seq<char>>, k: nat) -> Result<Seq<UnitView>, Seq<char>>
    decreases k,
{
    if k == 0 {
        Ok(Seq::empty())
    } else {
        let line = text::trimmed(lines[k - 1]);
        match recorded(lines, (k - 1) as nat) {
            Err(e) => Err(e),
            Ok(units) => if line.len() == 0 {
                Ok(units)
            } else {
                match record_line(json::json_array(line), k) {
                    Err(e) => Err(e),
                    Ok(None) => Ok(units),
                    Ok(Some(u)) => Ok(units.push(u)),
                }
            },
        }
    }
}

/// What a whole record file gives.
pub open spec fn recorded_units(contents: Seq<char>) -> Result<Seq<UnitView>, Seq<char>> {
    let lines = text::split(contents, '\n');
    recorded(lines, lines.len())
}

/// An error in the first lines is the error of the whole.
proof fn lemma_error_stays(lines: Seq<Seq<char>>, j: nat, k: nat)
    requires
        j <= k,
        recorded(lines, j) is Err,
    ensures
        recorded(lines, k) == recorded(lines, j),
    decreases k,
{
    if j < k {
        lemma_error_stays(lines, j, (k - 1) as nat);
    }
}

/// The variables that a list of arrays gives.
pub(crate) fn read_env(items: &Vec<json::Item>) -> (env: Vec<(String, String)>)
    ensures
        pairs(env@) == env_pairs(items@.map_values(|i: json::Item| i@)),
{
    let ghost all = items@.map_values(|i: json::Item| i@);
    let mut env: Vec<(String, String)> = Vec::new();
    let mut i: usize = 0;
    assert(pairs(env@) =~= env_pairs(all.take(0)));
    while i < items.len()
        invariant
            i <= items@.len(),
            all == items@.map_values(|i: json::Item| i@),
            pairs(env@) == env_pairs(all.take(i as int)),
        decreases items@.len() - i,
    {
        let ghost before = pairs(env@);
        let ghost upto = all.take(i + 1);
        proof {
            assert(upto.drop_last() =~= all.take(i as int));
            assert(upto.last() == items@[i as int]@);
        }
        match &items[i].texts {
            Some(ts) => {
                let ghost tv = ts@.map_values(|t: Option<String>| text::optional(t));
                assert(items@[i as int]@.texts == Some(tv));
                if ts.len() >= 2 {
                    assert(tv[0] == text::optional(ts@[0]));
                    assert(tv[1] == text::optional(ts@[1]));
                    match (&ts[0], &ts[1]) {
                        (Some(k), Some(v)) => {
                            let pair = (k.as_str().to_owned(), v.as_str().to_owned());
                            env.push(pair);
                            assert(pairs(env@) =~= before.push((k@, v@)));
                        },
                        _ => {},
                    }
                }
            },
            None => {},
        }
        i += 1;
    }
    assert(all.take(i as int) =~= all);
    env
}

/// The unit that a record gives.
pub fn read_entries(entries: &Vec<json::Entry>) -> (r: Option<RustcUnit>)
    ensures
        match r {
            Some(u) => record_unit(json::entry_views(entries@)) == Some(u@),
            None => record_unit(json::entry_views(entries@)) is None,
        },
{
    let n: usize = entries.len();
    let ghost all = json::entry_views(entries@);
    if n < 3 {
        return None;
    }
    assert(all[0] == entries@[0]@);
    assert(all[1] == entries@[1]@);
    let cwd = match &entries[0].text {
        Some(t) => t.as_str().to_owned(),
        None => String::new(),
    };
    assert(cwd@ =~= text_or_empty(all[0]));
    let env = match &entries[1].items {
        Some(items) => read_env(items),
        None => Vec::new(),
    };
    assert(pairs(env@) =~= env_of(all[1]));
    let mut argv: Vec<String> = Vec::new();
    let mut i: usize = 2;
    let ghost tail = all.skip(2);
    assert(text::texts(argv@) =~= entry_texts(tail.take(0)));
    while i < n
        invariant
            2 <= i <= n,
            n == entries@.len(),
            all == json::entry_views(entries@),
            tail == all.skip(2),
            text::texts(argv@) == entry_texts(tail.take(i - 2)),
        decreases n - i,
    {
        let ghost before = text::texts(argv@);
        let ghost upto = tail.take(i - 1);
        proof {
            assert(upto.drop_last() =~= tail.take(i - 2));
            assert(upto.last() == entries@[i as int]@);
        }
        match &entries[i].text {
            Some(t) => {
                argv.push(t.as_str().to_owned());
                assert(text::texts(argv@) =~= before.push(t@));
            },
            None => {},
        }
        i += 1;
    }
    assert(tail.take(i - 2) =~= tail);
    if argv.len() == 0 {
        None
    } else {
        Some(build_unit(argv, cwd, env))
    }
}

/// What line `no` of a record file gives, once it has been read as JSON.
pub fn read_record(parsed: Result<Option<Vec<json::Entry>>, String>, no: usize) -> (r: Result<
    Option<RustcUnit>,
    String,
>)
    ensures
        match r {
            Ok(u) => record_line(json::outcome(parsed), no as nat) == Ok::<
                Option<UnitView>,
                Seq<char>,
            >(optional_unit(u)),
            Err(e) => record_line(json::outcome(parsed), no as nat) == Err::<
                Option<UnitView>,
                Seq<char>,
            >(e@),
        },
{
    match parsed {
        Err(e) => {
            let mut m = "line ".to_owned();
            m.append(text::decimal_text(no).as_str());
            m.append(": parse JSON: ");
            m.append(e.as_str());
            Err(m)
        },
        Ok(None) => {
            let mut m = "line ".to_owned();
            m.append(text::decimal_text(no).as_str());
            m.append(": expected JSON array");
            Err(m)
        },
        Ok(Some(entries)) => Ok(read_entries(&entries)),
    }
}

/// What an optional unit holds.
pub open spec fn optional_unit(u: Option<RustcUnit>) -> Option<UnitView> {
    match u {
        Some(u) => Some(u@),
        None => None,
    }
}

/// Reads the contents of a record file into units, in the order they were recorded.
pub fn parse_recorded(contents: &str) -> (r: Result<Vec<RustcUnit>, String>)
    ensures
        match r {
            Ok(units) => recorded_units(contents@) == Ok::<Seq<UnitView>, Seq<char>>(
                unit_views(units@),
            ),
            Err(e) => recorded_units(contents@) == Err::<Seq<UnitView>, Seq<char>>(e@),
        },
{
    let lines = text::split_at_char(contents, '\n');
    let n: usize = lines.len();
    let ghost lv = text::texts(lines@);
    let mut units: Vec<RustcUnit> = Vec::new();
    let mut i: usize = 0;
    assert(unit_views(units@) =~= Seq::<UnitView>::empty());
    while i < n
        invariant
            i <= n,
            n == lines@.len(),
            lv == text::texts(lines@),
            lv == text::split(contents@, '\n'),
            recorded(lv, i as nat) == Ok::<Seq<UnitView>, Seq<char>>(unit_views(units@)),
        decreases n - i,
    {
        let line = text::trim(lines[i].as_str());
        let ghost before = unit_views(units@);
        assert(line@ == text::trimmed(lv[i as int]));
        if !line.as_str().is_empty() {
            let parsed = json::read_array(line.as_str());
            match read_record(parsed, i + 1) {
                Ok(Some(u)) => {
                    units.push(u);
                    assert(unit_views(units@) =~= before.push(u@));
                },
                Ok(None) => {},
                Err(e) => {
                    proof {
                        assert(recorded(lv, (i + 1) as nat) == Err::<Seq<UnitView>, Seq<char>>(e@));
                        lemma_error_stays(lv, (i + 1) as nat, n as nat);
                    }
                    return Err(e);
                },
            }
        }
        i += 1;
    }
    Ok(units)
}

// ---------------------------------------------------------------------------
// Phases
// ---------------------------------------------------------------------------

/// A directory without slashes at its end.
pub open spec fn normal_dir(dir: Seq<char>) -> Seq<char> {
    text::without_trailing(dir, '/')
}

/// The crate that an artifact of this file name belongs to: without a leading
/// `lib`, up to the first dot, and without the last dash and what follows it.
pub open spec fn crate_of(file_name: Seq<char>) -> Option<Seq<char>> {
    let unprefixed = if text::has_prefix(file_name, "lib"@) {
        file_name.skip(3)
    } else {
        file_name
    };
    let stem = match text::cut_first(unprefixed, '.') {
        Some((stem, _)) => stem,
        None => unprefixed,
    };
    let name = match text::cut_last(stem, '-') {
        Some((name, _)) if name.len() > 0 => name,
        _ => stem,
    };
    if name.len() == 0 {
        None
    } else {
        Some(name)
    }
}

/// The output directory and crate name that an extern path points at.
pub open spec fn artifact(path: Seq<char>) -> Option<(Seq<char>, Seq<char>)> {
    match paths::name_of(path) {
        Some(file) => match crate_of(file) {
            Some(name) => Some((paths::dir_of(path), name)),
            None => None,
        },
        None => None,
    }
}

/// The unit emits this artifact.
pub open spec fn emits(u: UnitView, a: (Seq<char>, Seq<char>)) -> bool {
    u.crate_name.len() > 0 && u.out_dir.len() > 0 && normal_dir(u.out_dir) == a.0 && u.crate_name
        == a.1
}

/// `p` is the last unit before `i` that emits what this extern path of unit `i`
/// points at.
pub open spec fn supplies(units: Seq<UnitView>, i: int, e: int, p: int) -> bool {
    match artifact(units[i].externs[e]) {
        Some(a) => emits(units[p], a) && forall|q: int|
            p < q < i ==> !emits(#[trigger] units[q], a),
        None => false,
    }
}

/// Unit `i` depends on unit `p`. Units recorded after it are never dependencies.
pub open spec fn depends_on(units: Seq<UnitView>, i: int, p: int) -> bool {
    0 <= p < i && exists|e: int|
        0 <= e < units[i].externs.len() && #[trigger] supplies(units, i, e, p)
}

/// What each unit depends on.
pub open spec fn dependencies(units: Seq<UnitView>) -> Seq<Set<int>> {
    Seq::new(
        units.len(),
        |i: int|
            vstd::set_lib::set_int_range(0, units.len() as int).filter(
                |p: int| depends_on(units, i, p),
            ),
    )
}

/// Cuts off the slashes at the end of a directory.
pub fn normalize(p: &str) -> (r: String)
    ensures
        r@ == normal_dir(p@),
{
    text::trim_end_char(p, '/')
}

/// Given an artifact file name like `libfoo-abc123.rlib` or `foo-abc123`, returns
/// the crate name as `--crate-name` gives it.
pub fn extract_crate_name(file_name: &str) -> (r: Option<String>)
    ensures
        text::optional(r) == crate_of(file_name@),
{
    proof {
        reveal_strlit("lib");
    }
    let unprefixed = match text::strip_prefix(file_name, "lib") {
        Some(rest) => rest,
        None => file_name.to_owned(),
    };
    let stem = match text::cut_at_first(unprefixed.as_str(), '.') {
        Some((stem, _)) => stem,
        None => unprefixed,
    };
    let name = match text::cut_at_last(stem.as_str(), '-') {
        Some((name, _)) => if name.as_str().is_empty() {
            stem
        } else {
            name
        },
        None => stem,
    };
    if name.as_str().is_empty() {
        None
    } else {
        Some(name)
    }
}

/// The crate name of an artifact holds no slash.
proof fn lemma_artifact_name_has_no_slash(path: Seq<char>)
    ensures
        match artifact(path) {
            Some(a) => !a.1.contains('/'),
            None => true,
        },
{
    paths::lemma_name_has_no_slash(path);
    match paths::name_of(path) {
        Some(file) => {
            let unprefixed = if text::has_prefix(file, "lib"@) {
                file.skip(3)
            } else {
                file
            };
            reveal_strlit("lib");
            assert(!unprefixed.contains('/')) by {
                assert forall|k: int| 0 <= k < unprefixed.len() implies unprefixed[k] != '/' by {
                    if text::has_prefix(file, "lib"@) {
                        assert(file.contains(file[k + 3]));
                    } else {
                        assert(file.contains(file[k]));
                    }
                }
            }
            text::lemma_cut_first_keeps(unprefixed, '.', '/');
            let stem = match text::cut_first(unprefixed, '.') {
                Some((stem, _)) => stem,
                None => unprefixed,
            };
            text::lemma_cut_last_keeps(stem, '-', '/');
        },
        None => {},
    }
}

/// The text under which an artifact is filed.
pub open spec fn artifact_key(dir: Seq<char>, name: Seq<char>) -> Seq<char> {
    dir + "/"@ + name
}

/// Different artifacts are filed under different texts.
pub proof fn lemma_artifact_keys_differ(
    dir: Seq<char>,
    name: Seq<char>,
    dir2: Seq<char>,
    name2: Seq<char>,
)
    requires
        !name.contains('/'),
        !name2.contains('/'),
        artifact_key(dir, name) == artifact_key(dir2, name2),
    ensures
        dir == dir2,
        name == name2,
{
    lemma_key_parts(dir, name);
    lemma_key_parts(dir2, name2);
}

proof fn lemma_key_parts(dir: Seq<char>, name: Seq<char>)
    requires
        !name.contains('/'),
    ensures
        text::cut_last(artifact_key(dir, name), '/') == Some((dir, name)),
{
    reveal_strlit("/");
    let key = artifact_key(dir, name);
    let k = dir.len() as int;
    assert("/"@ =~= seq!['/']);
    assert(key[k] == '/');
    assert forall|j: int| k < j < key.len() implies key[j] != '/' by {
        assert(name.contains(name[j - k - 1]));
        assert(key[j] == name[j - k - 1]);
    }
    text::lemma_cut_last(key, '/', k);
    assert(key.take(k) =~= dir);
    assert(key.skip(k + 1) =~= name);
}

/// The text under which an artifact is filed.
pub(crate) fn key_text(dir: &str, name: &str) -> (r: String)
    ensures
        r@ == artifact_key(dir@, name@),
{
    let mut r = dir.to_owned();
    r.append("/");
    r.append(name);
    r
}

/// The unit has a place where its artifact is found: a name that a file can carry,
/// and a directory.
pub open spec fn is_filed(u: UnitView) -> bool {
    u.crate_name.len() > 0 && u.out_dir.len() > 0 && !u.crate_name.contains('/')
}

/// The text under which a unit's artifact is filed.
pub open spec fn filed_under(u: UnitView) -> Seq<char> {
    artifact_key(normal_dir(u.out_dir), u.crate_name)
}

/// A unit emits an artifact exactly if it is filed under the artifact's text.
pub proof fn lemma_emits_by_key(u: UnitView, a: (Seq<char>, Seq<char>))
    requires
        !a.1.contains('/'),
    ensures
        emits(u, a) <==> is_filed(u) && filed_under(u) == artifact_key(a.0, a.1),
{
    if is_filed(u) && filed_under(u) == artifact_key(a.0, a.1) {
        lemma_artifact_keys_differ(normal_dir(u.out_dir), u.crate_name, a.0, a.1);
    }
}

/// Where a unit's artifact is filed, if it is.
pub(crate) fn filing_key(u: &RustcUnit) -> (r: Option<String>)
    ensures
        text::optional(r) == if is_filed(u@) {
            Some(filed_under(u@))
        } else {
            None
        },
{
    if u.crate_name.as_str().is_empty() || u.out_dir.as_str().is_empty() {
        return None;
    }
    let name = text::chars_of(u.crate_name.as_str());
    match text::find_char(&name, '/') {
        Some(k) => {
            assert(u.crate_name@.contains(u.crate_name@[k as int]));
            None
        },
        None => {
            let dir = normalize(u.out_dir.as_str());
            Some(key_text(dir.as_str(), u.crate_name.as_str()))
        },
    }
}

/// Where the artifact that an extern path points at is filed.
fn lookup_key(path: &str) -> (r: Option<String>)
    ensures
        text::optional(r) == match artifact(path@) {
            Some(a) => Some(artifact_key(a.0, a.1)),
            None => None,
        },
{
    match paths::file_name(path) {
        Some(file) => match extract_crate_name(file.as_str()) {
            Some(name) => {
                let dir = paths::parent_dir(path);
                Some(key_text(dir.as_str(), name.as_str()))
            },
            None => None,
        },
        None => None,
    }
}

/// `latest` holds, for each text, the last of the first `i` units filed under it.
spec fn is_latest(latest: Map<Seq<char>, usize>, units: Seq<UnitView>, i: int) -> bool {
    &&& forall|key: Seq<char>| #[trigger]
        latest.contains_key(key) ==> latest[key] < i && is_filed(units[latest[key] as int])
            && filed_under(units[latest[key] as int]) == key
    &&& forall|q: int|
        0 <= q < i && is_filed(#[trigger] units[q]) ==> latest.contains_key(filed_under(units[q]))
            && q <= latest[filed_under(units[q])]
}

/// The units that unit `i` depends on, each once.
fn suppliers(
    u: &RustcUnit,
    latest: &StringHashMap<usize>,
    units: Ghost<Seq<UnitView>>,
    i: Ghost<int>,
) -> (r: Vec<usize>)
    requires
        0 <= i@ < units@.len(),
        units@[i@] == u@,
        is_latest(latest@, units@, i@),
    ensures
        forall|p: usize| #[trigger] r@.contains(p) <==> depends_on(units@, i@, p as int),
        r@.no_duplicates(),
{
    let mut r: Vec<usize> = Vec::new();
    let ghost uv = units@;
    let ghost ii = i@;
    let mut e: usize = 0;
    while e < u.externs.len()
        invariant
            e <= u.externs@.len(),
            0 <= ii < uv.len(),
            uv[ii] == u@,
            is_latest(latest@, uv, ii),
            r@.no_duplicates(),
            forall|p: usize| #[trigger]
                r@.contains(p) <==> p < ii && exists|x: int|
                    0 <= x < e && #[trigger] supplies(uv, ii, x, p as int),
        decreases u.externs@.len() - e,
    {
        let path = u.externs[e].as_str();
        let ghost before = r@;
        assert(uv[ii].externs[e as int] == path@);
        match lookup_key(path) {
            Some(key) => {
                let ghost a = artifact(path@)->0;
                proof {
                    lemma_artifact_name_has_no_slash(path@);
                    assert forall|q: int| 0 <= q < ii implies (emits(#[trigger] uv[q], a)
                        <==> is_filed(uv[q]) && filed_under(uv[q]) == key@) by {
                        lemma_emits_by_key(uv[q], a);
                    }
                }
                match latest.get(key.as_str()) {
                    Some(found) => {
                        let p: usize = *found;
                        assert(supplies(uv, ii, e as int, p as int));
                        assert forall|q: int| 0 <= q < ii && #[trigger] supplies(
                            uv,
                            ii,
                            e as int,
                            q,
                        ) implies q == p by {
                            assert(emits(uv[q], a));
                        }
                        if !holds(&r, p) {
                            r.push(p);
                        }
                        proof {
                            assert forall|y: usize| #[trigger] r@.contains(y) <==> before.contains(y)
                                || y == p by {
                                if before.contains(y) {
                                    let k = choose|k: int| 0 <= k < before.len() && before[k] == y;
                                    assert(r@[k] == y);
                                }
                                if !before.contains(p) {
                                    assert(r@[before.len() as int] == p);
                                }
                            }
                        }
                    },
                    None => {
                        assert forall|q: int| 0 <= q < ii implies !(#[trigger] supplies(
                            uv,
                            ii,
                            e as int,
                            q,
                        )) by {
                            if supplies(uv, ii, e as int, q) {
                                assert(emits(uv[q], a));
                            }
                        }
                    },
                }
            },
            None => {},
        }
        proof {
            assert forall|p: usize| #[trigger] r@.contains(p) <==> p < ii && exists|x: int|
                0 <= x < e + 1 && #[trigger] supplies(uv, ii, x, p as int) by {
                let was = before.contains(p);
                if exists|x: int| 0 <= x < e + 1 && #[trigger] supplies(uv, ii, x, p as int) {
                    let x = choose|x: int|
                        0 <= x < e + 1 && #[trigger] supplies(uv, ii, x, p as int);
                    if x == e && p < ii {
                        assert(supplies(uv, ii, e as int, p as int));
                    }
                }
                if p < ii && supplies(uv, ii, e as int, p as int) {
                    assert(artifact(path@) is Some);
                }
            }
        }
        e += 1;
    }
    r
}

/// Whether `s` has `x`.
pub(crate) fn holds(s: &Vec<usize>, x: usize) -> (r: bool)
    ensures
        r == s@.contains(x),
{
    let mut i: usize = 0;
    while i < s.len()
        invariant
            i <= s@.len(),
            forall|j: int| 0 <= j < i ==> s@[j] != x,
        decreases s@.len() - i,
    {
        if s[i] == x {
            return true;
        }
        i += 1;
    }
    false
}

/// The units that each unit depends on, each once.
fn dependency_lists(units: &[RustcUnit]) -> (deps: Vec<Vec<usize>>)
    ensures
        deps@.len() == units@.len(),
        forall|i: int, p: usize|
            0 <= i < units@.len() ==> (#[trigger] deps@[i]@.contains(p) <==> depends_on(
                unit_views(units@),
                i,
                p as int,
            )),
{
    let n: usize = units.len();
    let ghost uv = unit_views(units@);
    let mut latest: StringHashMap<usize> = StringHashMap::new();
    let mut deps: Vec<Vec<usize>> = Vec::new();
    let mut i: usize = 0;
    while i < n
        invariant
            i <= n,
            n == units@.len(),
            uv == unit_views(units@),
            is_latest(latest@, uv, i as int),
            deps@.len() == i,
            forall|x: int, p: usize|
                0 <= x < i ==> (#[trigger] deps@[x]@.contains(p) <==> depends_on(
                    uv,
                    x,
                    p as int,
                )),
        decreases n - i,
    {
        let u = &units[i];
        assert(uv[i as int] == u@);
        let list = suppliers(u, &latest, Ghost(uv), Ghost(i as int));
        deps.push(list);
        match filing_key(u) {
            Some(key) => {
                let ghost before = latest@;
                latest.insert(key, i);
                proof {
                    assert forall|q: int| 0 <= q < i + 1 && is_filed(#[trigger] uv[q]) implies latest@.contains_key(
                        filed_under(uv[q]),
                    ) && q <= latest@[filed_under(uv[q])] by {
                        if q < i {
                            assert(before.contains_key(filed_under(uv[q])));
                        }
                    }
                }
            },
            None => {},
        }
        i += 1;
    }
    deps
}

/// Assigns each unit to a phase.
///
/// `phases[p]` lists the units of phase `p` by their numbers. Units without
/// dependencies land in phase 0, every unit lands in a strictly later phase than
/// what it depends on, and none is left out.
pub fn assign_phases(units: &[RustcUnit]) -> (phases: Vec<Vec<usize>>)
    ensures
        layers::is_layering(dependencies(unit_views(units@)), layers::lists(phases@)),
        forall|p: int| 0 <= p < phases@.len() ==> layers::rising(#[trigger] layers::lists(phases@)[p]),
        forall|v: usize|
            v < units@.len() ==> #[trigger] layers::is_listed(layers::lists(phases@), v),
{
    let n: usize = units.len();
    let ghost uv = unit_views(units@);
    let deps = dependency_lists(units);
    let mut keys: Vec<Vec<Vec<char>>> = Vec::new();
    let mut i: usize = 0;
    while i < n
        invariant
            i <= n,
            keys@.len() == i,
        decreases n - i,
    {
        keys.push(Vec::new());
        i += 1;
    }
    let ghost dl = layers::lists(deps@);
    let ghost graph = dependencies(uv);
    proof {
        assert forall|x: int, k: int| 0 <= x < dl.len() && 0 <= k < dl[x].len() implies (#[trigger]
        dl[x][k]) < dl.len() by {
            let p = dl[x][k];
            assert(deps@[x]@[k] == p);
            assert(deps@[x]@.contains(p));
        }
        assert forall|x: int| 0 <= x < graph.len() implies graph[x] == #[trigger] layers::sets_of(
            dl,
        )[x] by {
            assert forall|p: int| graph[x].contains(p) <==> layers::sets_of(dl)[x].contains(p) by {
                if 0 <= p < n {
                    assert(dl[x] == deps@[x]@);
                    assert(deps@[x]@.contains(p as usize) <==> depends_on(uv, x, p));
                }
            }
            assert(graph[x] =~= layers::sets_of(dl)[x]);
        }
        assert(graph =~= layers::sets_of(dl));
    }
    let peeled = layers::peel_dependencies(&deps, &keys);
    let ghost pv = layers::lists(peeled.phases@);
    proof {
        layers::lemma_layering_lists_once(graph, pv);
    }
    let phases = layers::list_by_number(&peeled.phases, n);
    proof {
        let lv = layers::lists(phases@);
        layers::lemma_relisted(graph, pv, lv);
        lemma_every_unit_has_a_phase(uv, lv);
    }
    phases
}

/// The phases of recorded units leave none out, as no unit depends on a later one.
pub proof fn lemma_every_unit_has_a_phase(units: Seq<UnitView>, phases: Seq<Seq<usize>>)
    requires
        layers::is_layering(dependencies(units), phases),
        units.len() <= usize::MAX,
    ensures
        forall|v: usize| v < units.len() ==> #[trigger] layers::is_listed(phases, v),
{
    let graph = dependencies(units);
    assert forall|v: usize| v < units.len() implies #[trigger] layers::is_listed(phases, v) by {
        layers::lemma_descending_settles(graph, v as int);
        assert(layers::settled(graph, v as int, phases.len()));
        let p = layers::lemma_settled_has_phase(graph, v as int, phases.len());
        assert(phases[p as int].contains(v));
    }
}

/// Every unit lands in a strictly later phase than what it depends on.
pub proof fn law_dependencies_run_earlier(
    units: Seq<UnitView>,
    phases: Seq<Seq<usize>>,
    a: int,
    b: int,
    p: usize,
    i: usize,
)
    requires
        layers::is_layering(dependencies(units), phases),
        0 <= a < phases.len(),
        0 <= b < phases.len(),
        phases[a].contains(p),
        phases[b].contains(i),
        depends_on(units, i as int, p as int),
    ensures
        a < b,
{
    let graph = dependencies(units);
    assert(graph[i as int].contains(p as int));
    assert(layers::settled(graph, p as int, b as nat));
    if b <= a {
        layers::lemma_settled_monotone(graph, p as int, b as nat, a as nat);
    }
}

/// A unit depends on no unit recorded after it, and not on itself.
pub proof fn law_no_unit_depends_on_a_later_one(units: Seq<UnitView>, i: int, p: int)
    requires
        depends_on(units, i, p),
    ensures
        p < i,
{
}

/// Without extern paths, all units share the first phase.
pub proof fn law_unrelated_units_share_the_first_phase(
    units: Seq<UnitView>,
    phases: Seq<Seq<usize>>,
)
    requires
        layers::is_layering(dependencies(units), phases),
        0 < units.len() <= usize::MAX,
        forall|i: int| 0 <= i < units.len() ==> (#[trigger] units[i]).externs.len() == 0,
    ensures
        phases.len() == 1,
        forall|v: usize| v < units.len() ==> #[trigger] phases[0].contains(v),
{
    let graph = dependencies(units);
    lemma_every_unit_has_a_phase(units, phases);
    assert forall|v: int| 0 <= v < units.len() implies #[trigger] layers::settled(graph, v, 1) by {
        assert(units[v].externs.len() == 0);
    }
    assert forall|v: usize| v < units.len() implies #[trigger] phases[0].contains(v) by {
        assert(layers::is_listed(phases, v));
        assert(layers::settled(graph, v as int, 1));
        assert(layers::in_phase(graph, v as int, 0));
        let p = choose|p: int| 0 <= p < phases.len() && #[trigger] phases[p].contains(v);
        assert(phases.len() > 0);
    }
    assert(layers::is_listed(phases, 0));
    if phases.len() > 1 {
        let v = phases[1][0];
        assert(phases[1].contains(v));
        assert(layers::in_phase(graph, v as int, 1));
        assert(layers::settled(graph, v as int, 1));
    }
}

} // verus!
