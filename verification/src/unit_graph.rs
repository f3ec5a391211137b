//! Phase planner over Cargo's unit graph.
//!
//! Unlike [`crate::graph`], which plans per package from `cargo metadata`, this
//! module plans over the compilation units that Cargo itself reports
//! (`cargo +nightly build --unit-graph -Z unstable-options`): each unit carries
//! its mode, its resolved features, and its dependencies as indices into the same
//! list of units.

use vstd::prelude::*;
use vstd::string::StringExecFns;
use crate::{layers, order, reach, text};

verus! {

/// One compilation unit as produced by cargo.
#[derive(Debug, Clone)]
pub struct UnitGraphUnit {
    pub pkg_id: String,
    /// Short package name derived from `pkg_id` (e.g. `serde`).
    pub pkg_name: String,
    /// Package version derived from `pkg_id` when available.
    pub pkg_version: Option<String>,
    /// The crate name cargo uses (target.name), e.g. `serde_derive`.
    pub name: String,
    pub src_path: String,
    pub edition: String,
    pub crate_types: Vec<String>,
    /// Target kinds: "lib" | "bin" | "proc-macro" | "custom-build" | ...
    pub kind: Vec<String>,
    /// "build" | "run-custom-build" | "check" | "test" | "doc" | ...
    pub mode: String,
    pub features: Vec<String>,
    pub opt_level: String,
    pub debuginfo: u32,
    pub debug_assertions: bool,
    pub incremental: bool,
    pub panic: String,
    pub dependencies: Vec<UnitDep>,
}

#[derive(Debug, Clone)]
pub struct UnitDep {
    pub index: usize,
    pub extern_crate_name: String,
}

/// A unit as it stands in cargo's JSON, before its package id is taken apart.
#[derive(Debug, Clone)]
pub struct RawUnit {
    pub pkg_id: String,
    pub target: RawTarget,
    pub profile: RawProfile,
    pub mode: String,
    pub features: Vec<String>,
    pub dependencies: Vec<UnitDep>,
}

#[derive(Debug, Clone)]
pub struct RawTarget {
    pub name: String,
    pub src_path: String,
    pub edition: String,
    pub crate_types: Vec<String>,
    pub kind: Vec<String>,
}

#[derive(Debug, Clone)]
pub struct RawProfile {
    pub opt_level: String,
    pub debuginfo: u32,
    pub debug_assertions: bool,
    pub incremental: bool,
    pub panic: String,
}

/// The JSON values that cargo may write for `debuginfo`.
#[derive(Debug, Clone)]
pub enum DebugInfo {
    /// A number, if it is a non-negative integer.
    Number(Option<u64>),
    Text(String),
    Flag(bool),
    Null,
    /// An array or an object.
    Other,
}

// ---------------------------------------------------------------------------
// Units from cargo's JSON
// ---------------------------------------------------------------------------

/// The debug level that a name stands for.
pub open spec fn named_debug_level(name: Seq<char>) -> u32 {
    if name == "line-tables-only"@ || name == "limited"@ || name == "1"@ {
        1
    } else if name == "full"@ || name == "true"@ || name == "2"@ {
        2
    } else {
        0
    }
}

/// The debug level of a `debuginfo` value: a number stands for itself, cut down
/// to 32 bits; unknown names and numbers that are no integer count as 0.
pub open spec fn debug_level(value: DebugInfo) -> Option<u32> {
    match value {
        DebugInfo::Number(Some(n)) => Some((n % 0x1_0000_0000) as u32),
        DebugInfo::Number(None) => Some(0),
        DebugInfo::Text(name) => Some(named_debug_level(name@)),
        DebugInfo::Flag(b) => Some(
            if b {
                2
            } else {
                0
            },
        ),
        DebugInfo::Null => Some(0),
        DebugInfo::Other => None,
    }
}

/// Reads a `debuginfo` value; cargo writes a number, a name, a flag or null.
pub fn read_debuginfo(value: &DebugInfo) -> (r: Result<u32, String>)
    ensures
        match r {
            Ok(level) => debug_level(*value) == Some(level),
            Err(e) => debug_level(*value) is None && e@ == "invalid debuginfo value"@,
        },
{
    match value {
        DebugInfo::Number(Some(n)) => {
            let number: u64 = *n;
            assert(number as u32 == number % 0x1_0000_0000) by (bit_vector);
            Ok(
                #[verifier::truncate]
                (number as u32),
            )
        },
        DebugInfo::Number(None) => Ok(0),
        DebugInfo::Text(name) => {
            let name = name.as_str();
            if text::same(name, "line-tables-only") || text::same(name, "limited") || text::same(
                name,
                "1",
            ) {
                Ok(1)
            } else if text::same(name, "full") || text::same(name, "true") || text::same(name, "2") {
                Ok(2)
            } else {
                Ok(0)
            }
        },
        DebugInfo::Flag(b) => if *b {
            Ok(2)
        } else {
            Ok(0)
        },
        DebugInfo::Null => Ok(0),
        DebugInfo::Other => Err("invalid debuginfo value".to_owned()),
    }
}

/// `u` is the unit that `raw` describes.
pub open spec fn describes(raw: RawUnit, u: UnitGraphUnit) -> bool {
    &&& u.pkg_id == raw.pkg_id
    &&& u.pkg_name@ == pkg_id_parts(raw.pkg_id@).0
    &&& text::optional(u.pkg_version) == pkg_id_parts(raw.pkg_id@).1
    &&& u.name == raw.target.name
    &&& u.src_path == raw.target.src_path
    &&& u.edition == raw.target.edition
    &&& u.crate_types == raw.target.crate_types
    &&& u.kind == raw.target.kind
    &&& u.mode == raw.mode
    &&& u.features == raw.features
    &&& u.opt_level == raw.profile.opt_level
    &&& u.debuginfo == raw.profile.debuginfo
    &&& u.debug_assertions == raw.profile.debug_assertions
    &&& u.incremental == raw.profile.incremental
    &&& u.panic == raw.profile.panic
    &&& u.dependencies == raw.dependencies
}

/// The unit that `raw` describes.
pub fn unit_from_raw(raw: RawUnit) -> (u: UnitGraphUnit)
    ensures
        describes(raw, u),
{
    let (pkg_name, pkg_version) = split_pkg_id(raw.pkg_id.as_str());
    UnitGraphUnit {
        pkg_id: raw.pkg_id,
        pkg_name,
        pkg_version,
        name: raw.target.name,
        src_path: raw.target.src_path,
        edition: raw.target.edition,
        crate_types: raw.target.crate_types,
        kind: raw.target.kind,
        mode: raw.mode,
        features: raw.features,
        opt_level: raw.profile.opt_level,
        debuginfo: raw.profile.debuginfo,
        debug_assertions: raw.profile.debug_assertions,
        incremental: raw.profile.incremental,
        panic: raw.profile.panic,
        dependencies: raw.dependencies,
    }
}

/// The units that cargo's JSON describes, in its order.
pub fn units_from_raw(raw: Vec<RawUnit>) -> (units: Vec<UnitGraphUnit>)
    ensures
        units@.len() == raw@.len(),
        forall|i: int| 0 <= i < units@.len() ==> describes(raw@[i], #[trigger] units@[i]),
{
    let mut units: Vec<UnitGraphUnit> = Vec::new();
    for one in it: raw.into_iter()
        invariant
            it.seq() == raw@,
            units@.len() == it.index(),
            forall|i: int| 0 <= i < units@.len() ==> describes(raw@[i], #[trigger] units@[i]),
    {
        units.push(unit_from_raw(one));
    }
    units
}

// ---------------------------------------------------------------------------
// Package ids
// ---------------------------------------------------------------------------

pub open spec fn is_separator(c: char) -> bool {
    c == '/' || c == '\\'
}

/// `s` without the separators it ends with.
pub open spec fn without_separators(s: Seq<char>) -> Seq<char>
    decreases s.len(),
{
    if s.len() > 0 && is_separator(s.last()) {
        without_separators(s.drop_last())
    } else {
        s
    }
}

/// The longest end of `s` that holds no separator.
pub open spec fn separator_free_end(s: Seq<char>) -> Seq<char>
    decreases s.len(),
{
    if s.len() == 0 || is_separator(s.last()) {
        Seq::empty()
    } else {
        separator_free_end(s.drop_last()).push(s.last())
    }
}

/// The last non-empty segment of a URL, or the whole of it if it has none.
pub open spec fn last_segment(url: Seq<char>) -> Seq<char> {
    let trimmed = without_separators(url);
    if trimmed.len() == 0 {
        url
    } else {
        separator_free_end(trimmed)
    }
}

/// The longest beginning of `s` that holds no white space.
pub open spec fn leading_word(s: Seq<char>) -> Seq<char>
    decreases s.len(),
{
    if s.len() == 0 || text::is_white(s.first()) {
        Seq::empty()
    } else {
        seq![s.first()] + leading_word(s.drop_first())
    }
}

/// The first word of `s`, if it has one.
pub open spec fn first_word(s: Seq<char>) -> Option<Seq<char>> {
    let rest = text::trim_front(s);
    if rest.len() == 0 {
        None
    } else {
        Some(leading_word(rest))
    }
}

/// The name and version in a package id.
pub open spec fn pkg_id_parts(id: Seq<char>) -> (Seq<char>, Option<Seq<char>>) {
    match text::cut_last(id, '#') {
        Some((prefix, tail)) => match text::cut_last(tail, '@') {
            Some((name, version)) => (name, Some(version)),
            None => (
                last_segment(prefix),
                if tail.len() == 0 {
                    None
                } else {
                    Some(tail)
                },
            ),
        },
        None => match text::cut_first(id, ' ') {
            Some((name, rest)) => (name, first_word(rest)),
            None => (id, None),
        },
    }
}

fn last_segment_text(url: &str) -> (r: String)
    ensures
        r@ == last_segment(url@),
{
    let cs = text::chars_of(url);
    let mut to: usize = cs.len();
    assert(cs@.take(to as int) =~= url@);
    while to > 0 && (cs[to - 1] == '/' || cs[to - 1] == '\\')
        invariant
            to <= cs@.len(),
            without_separators(cs@.take(to as int)) == without_separators(url@),
        decreases to,
    {
        assert(cs@.take(to as int).drop_last() =~= cs@.take(to - 1));
        to -= 1;
    }
    if to == 0 {
        return url.to_owned();
    }
    let ghost trimmed = cs@.take(to as int);
    let mut from: usize = to;
    assert(cs@.subrange(to as int, to as int) =~= Seq::<char>::empty());
    assert(separator_free_end(trimmed) =~= separator_free_end(cs@.take(from as int))
        + cs@.subrange(from as int, to as int));
    while from > 0 && !(cs[from - 1] == '/' || cs[from - 1] == '\\')
        invariant
            from <= to <= cs@.len(),
            separator_free_end(trimmed) == separator_free_end(cs@.take(from as int))
                + cs@.subrange(from as int, to as int),
        decreases from,
    {
        proof {
            assert(cs@.take(from as int).drop_last() =~= cs@.take(from - 1));
            assert(seq![cs@[from - 1]] + cs@.subrange(from as int, to as int) =~= cs@.subrange(
                from - 1,
                to as int,
            ));
            assert(separator_free_end(trimmed) =~= separator_free_end(cs@.take(from - 1))
                + cs@.subrange(from - 1, to as int));
        }
        from -= 1;
    }
    assert(separator_free_end(cs@.take(from as int)) =~= Seq::<char>::empty());
    assert(separator_free_end(trimmed) =~= cs@.subrange(from as int, to as int));
    text::text_of(&cs, from, to)
}

fn first_word_text(s: &str) -> (r: Option<String>)
    ensures
        text::optional(r) == first_word(s@),
{
    let cs = text::chars_of(s);
    let mut from: usize = 0;
    assert(cs@.skip(0) =~= s@);
    while from < cs.len() && text::white(cs[from])
        invariant
            from <= cs@.len(),
            text::trim_front(cs@.skip(from as int)) == text::trim_front(s@),
        decreases cs@.len() - from,
    {
        assert(cs@.skip(from as int).drop_first() =~= cs@.skip(from + 1));
        from += 1;
    }
    if from == cs.len() {
        return None;
    }
    let ghost rest = cs@.skip(from as int);
    let mut to: usize = from;
    assert(cs@.subrange(from as int, from as int) =~= Seq::<char>::empty());
    assert(leading_word(rest) =~= cs@.subrange(from as int, to as int) + leading_word(
        cs@.skip(to as int),
    ));
    while to < cs.len() && !text::white(cs[to])
        invariant
            from <= to <= cs@.len(),
            leading_word(rest) == cs@.subrange(from as int, to as int) + leading_word(
                cs@.skip(to as int),
            ),
        decreases cs@.len() - to,
    {
        proof {
            assert(cs@.skip(to as int).drop_first() =~= cs@.skip(to + 1));
            assert(cs@.subrange(from as int, to as int) + seq![cs@[to as int]] =~= cs@.subrange(
                from as int,
                to + 1,
            ));
            assert(leading_word(rest) =~= cs@.subrange(from as int, to + 1) + leading_word(
                cs@.skip(to + 1),
            ));
        }
        to += 1;
    }
    assert(leading_word(cs@.skip(to as int)) =~= Seq::<char>::empty());
    assert(leading_word(rest) =~= cs@.subrange(from as int, to as int));
    Some(text::text_of(&cs, from, to))
}

/// Split a cargo package id into (name, version). Handles the three formats
/// cargo emits:
///
///   * legacy:    `proc-macro2 1.0.106 (registry+https://...)`
///   * registry:  `registry+https://...#proc-macro2@1.0.106`
///   * path/git:  `path+file:///tmp/local#0.1.0` (name = last URL segment)
pub fn split_pkg_id(id: &str) -> (r: (String, Option<String>))
    ensures
        r.0@ == pkg_id_parts(id@).0,
        text::optional(r.1) == pkg_id_parts(id@).1,
{
    match text::cut_at_last(id, '#') {
        Some((prefix, tail)) => match text::cut_at_last(tail.as_str(), '@') {
            Some((name, version)) => (name, Some(version)),
            None => {
                let name = last_segment_text(prefix.as_str());
                if tail.as_str().is_empty() {
                    (name, None)
                } else {
                    (name, Some(tail))
                }
            },
        },
        None => match text::cut_at_first(id, ' ') {
            Some((name, rest)) => (name, first_word_text(rest.as_str())),
            None => (id.to_owned(), None),
        },
    }
}

// ---------------------------------------------------------------------------
// Phases
// ---------------------------------------------------------------------------

/// The dependency indices of a unit.
pub open spec fn dep_indices(u: UnitGraphUnit) -> Seq<usize> {
    u.dependencies@.map_values(|d: UnitDep| d.index)
}

/// The dependency indices of each unit.
pub open spec fn dep_lists(units: Seq<UnitGraphUnit>) -> Seq<Seq<usize>> {
    units.map_values(|u: UnitGraphUnit| dep_indices(u))
}

/// The graph of the units: each waits for the units its dependencies name.
pub open spec fn unit_deps(units: Seq<UnitGraphUnit>) -> Seq<Set<int>> {
    layers::sets_of(dep_lists(units))
}

/// What units are sorted by within a phase: package name, crate name, mode.
pub open spec fn sort_key(u: UnitGraphUnit) -> Seq<Seq<char>> {
    seq![u.pkg_name@, u.name@, u.mode@]
}

/// The sort keys of all units.
pub open spec fn sort_keys(units: Seq<UnitGraphUnit>) -> Seq<Seq<Seq<char>>> {
    units.map_values(|u: UnitGraphUnit| sort_key(u))
}

/// Dependency `k` of unit `i` names no unit.
pub open spec fn dangling_at(units: Seq<UnitGraphUnit>, i: int, k: int) -> bool {
    &&& 0 <= i < units.len()
    &&& 0 <= k < units[i].dependencies@.len()
    &&& units[i].dependencies@[k].index >= units.len()
}

/// Dependency `k` of unit `i` is the first that names no unit.
pub open spec fn first_dangling_at(units: Seq<UnitGraphUnit>, i: int, k: int) -> bool {
    &&& dangling_at(units, i, k)
    &&& forall|i2: int, k2: int| #[trigger]
        dangling_at(units, i2, k2) ==> layers::earlier((i, k), (i2, k2)) || (i2 == i && k2 == k)
}

/// Some dependency names no unit.
pub open spec fn has_dangling(units: Seq<UnitGraphUnit>) -> bool {
    exists|i: int, k: int| dangling_at(units, i, k)
}

pub open spec fn dangling_message(units: Seq<UnitGraphUnit>, i: int, k: int) -> Seq<char> {
    "unit "@ + text::decimal(i as nat) + " ("@ + units[i].name@
        + ") references out-of-range dep index "@ + text::decimal(
        units[i].dependencies@[k].index as nat,
    )
}

pub open spec fn cycle_message(emitted: nat, n: nat) -> Seq<char> {
    "unit graph contains a cycle: emitted "@ + text::decimal(emitted) + " of "@ + text::decimal(n)
        + " units"@
}

/// Reads the dependency indices of unit `i`, or says which one names no unit.
fn read_dependencies(units: &[UnitGraphUnit], i: usize) -> (r: Result<Vec<usize>, String>)
    requires
        i < units@.len(),
        forall|i2: int, k2: int| #[trigger] dangling_at(units@, i2, k2) ==> i2 >= i,
    ensures
        match r {
            Ok(list) => list@ == dep_indices(units@[i as int]) && forall|k: int|
                !dangling_at(units@, i as int, k),
            Err(e) => exists|k: int| #[trigger]
                first_dangling_at(units@, i as int, k) && e@ == dangling_message(
                    units@,
                    i as int,
                    k,
                ),
        },
{
    let n: usize = units.len();
    let u = &units[i];
    let mut list: Vec<usize> = Vec::new();
    let mut k: usize = 0;
    while k < u.dependencies.len()
        invariant
            n == units@.len(),
            i < n,
            u == units@[i as int],
            k <= u.dependencies@.len(),
            forall|i2: int, k2: int| #[trigger] dangling_at(units@, i2, k2) ==> i2 >= i,
            forall|k2: int| 0 <= k2 < k ==> !#[trigger] dangling_at(units@, i as int, k2),
            list@ == dep_indices(*u).take(k as int),
        decreases u.dependencies@.len() - k,
    {
        let index: usize = u.dependencies[k].index;
        if index >= n {
            let mut e = String::new();
            e.append("unit ");
            e.append(text::decimal_text(i).as_str());
            e.append(" (");
            e.append(u.name.as_str());
            e.append(") references out-of-range dep index ");
            e.append(text::decimal_text(index).as_str());
            proof {
                assert(e@ =~= dangling_message(units@, i as int, k as int));
                assert(first_dangling_at(units@, i as int, k as int));
            }
            return Err(e);
        }
        list.push(index);
        assert(list@ =~= dep_indices(*u).take(k + 1));
        k += 1;
    }
    assert(list@ =~= dep_indices(*u));
    Ok(list)
}

/// Kahn's algorithm over the unit indices.
///
/// `run-custom-build` units (build-script execution) are kept in the graph: they
/// produce artifacts that `build`-mode units depend on.
///
/// Returns phases where each phase lists the indices of the units whose
/// dependencies all stand in earlier phases. Within a phase units are sorted by
/// `(pkg_name, name, mode)`; units with the same key keep the order in which
/// their last dependency was taken.
///
/// Errors if a dependency names no unit, or if the graph contains a cycle.
pub fn assign_phases(units: &[UnitGraphUnit]) -> (r: Result<Vec<Vec<usize>>, String>)
    ensures
        match r {
            Ok(phases) => {
                &&& !has_dangling(units@)
                &&& !layers::has_cycle(unit_deps(units@))
                &&& layers::is_layering(unit_deps(units@), layers::lists(phases@))
                &&& layers::ordered(
                    dep_lists(units@),
                    sort_keys(units@),
                    layers::lists(phases@),
                )
            },
            Err(e) => if has_dangling(units@) {
                exists|i: int, k: int| #[trigger]
                    first_dangling_at(units@, i, k) && e@ == dangling_message(units@, i, k)
            } else {
                &&& layers::has_cycle(unit_deps(units@))
                &&& e@ == cycle_message(
                    layers::reachable(unit_deps(units@)).len(),
                    units@.len(),
                )
            },
        },
{
    let n: usize = units.len();
    let mut deps: Vec<Vec<usize>> = Vec::new();
    let mut keys: Vec<Vec<Vec<char>>> = Vec::new();
    let mut i: usize = 0;
    while i < n
        invariant
            i <= n,
            n == units@.len(),
            deps@.len() == i,
            keys@.len() == i,
            forall|i2: int, k2: int| #[trigger] dangling_at(units@, i2, k2) ==> i2 >= i,
            forall|v: int| 0 <= v < i ==> (#[trigger] deps@[v])@ == dep_indices(units@[v]),
            forall|v: int|
                0 <= v < i ==> order::row_view((#[trigger] keys@[v])@) == sort_key(units@[v]),
        decreases n - i,
    {
        match read_dependencies(units, i) {
            Ok(list) => {
                deps.push(list);
            },
            Err(e) => {
                proof {
                    let k = choose|k: int| #[trigger]
                        first_dangling_at(units@, i as int, k) && e@ == dangling_message(
                            units@,
                            i as int,
                            k,
                        );
                    assert(dangling_at(units@, i as int, k));
                }
                return Err(e);
            },
        }
        let mut key: Vec<Vec<char>> = Vec::new();
        key.push(text::chars_of(units[i].pkg_name.as_str()));
        key.push(text::chars_of(units[i].name.as_str()));
        key.push(text::chars_of(units[i].mode.as_str()));
        assert(order::row_view(key@) =~= sort_key(units@[i as int]));
        keys.push(key);
        i += 1;
    }
    proof {
        assert(layers::lists(deps@) =~= dep_lists(units@));
        assert(order::table_view(keys@) =~= sort_keys(units@));
        assert forall|a: int, t: int|
            0 <= a < deps@.len() && 0 <= t < layers::lists(deps@)[a].len() implies #[trigger] layers::lists(
            deps@,
        )[a][t] < deps@.len() by {
            assert(!dangling_at(units@, a, t));
        }
    }
    let peeled = layers::peel_dependencies(&deps, &keys);
    if peeled.emitted != n {
        let mut e = String::new();
        e.append("unit graph contains a cycle: emitted ");
        e.append(text::decimal_text(peeled.emitted).as_str());
        e.append(" of ");
        e.append(text::decimal_text(n).as_str());
        e.append(" units");
        assert(e@ =~= cycle_message(
            layers::reachable(unit_deps(units@)).len(),
            units@.len(),
        ));
        return Err(e);
    }
    Ok(peeled.phases)
}

/// What a unit depends on stands in an earlier phase.
pub proof fn law_units_come_after_their_dependencies(
    units: Seq<UnitGraphUnit>,
    phases: Seq<Seq<usize>>,
    p: int,
    i: usize,
    k: int,
)
    requires
        layers::is_layering(unit_deps(units), phases),
        !has_dangling(units),
        units.len() <= usize::MAX,
        0 <= p < phases.len(),
        phases[p].contains(i),
        0 <= k < units[i as int].dependencies@.len(),
    ensures
        exists|q: int|
            0 <= q < p && #[trigger] phases[q].contains(units[i as int].dependencies@[k].index),
{
    let deps = unit_deps(units);
    let d = units[i as int].dependencies@[k].index;
    assert(i < deps.len());
    assert(dep_lists(units)[i as int][k] == d);
    assert(!dangling_at(units, i as int, k));
    assert(deps[i as int].contains(d as int));
    layers::law_dependencies_come_earlier(deps, phases, p, i, d as int);
}

/// Without a cycle no unit is left out: build-script executions have their place in
/// the phases like any other unit.
pub proof fn law_every_unit_has_a_phase(
    units: Seq<UnitGraphUnit>,
    phases: Seq<Seq<usize>>,
    i: usize,
)
    requires
        layers::is_layering(unit_deps(units), phases),
        !layers::has_cycle(unit_deps(units)),
        units.len() <= usize::MAX,
        i < units.len(),
    ensures
        layers::is_listed(phases, i),
{
    layers::law_all_listed_iff_acyclic(unit_deps(units), phases);
}

/// Every index of every phase names a unit.
pub open spec fn phases_in_range(units: Seq<UnitGraphUnit>, phases: Seq<Vec<usize>>) -> bool {
    forall|p: int, i: int|
        0 <= p < phases.len() && 0 <= i < phases[p]@.len() ==> #[trigger] phases[p]@[i]
            < units.len()
}

/// Some unit of `phase` belongs to the package with this id.
pub open spec fn phase_has_package(
    units: Seq<UnitGraphUnit>,
    phase: Seq<usize>,
    id: Seq<char>,
) -> bool {
    exists|i: int| 0 <= i < phase.len() && units[#[trigger] phase[i] as int].pkg_id@ == id
}

/// For each phase the ids of the packages its units belong to, each once, in
/// ascending order. Useful to reconcile unit-graph output against the
/// package-level phases of `cargo metadata`.
pub fn listed_pkg_ids(units: &[UnitGraphUnit], phases: &[Vec<usize>]) -> (r: Vec<Vec<String>>)
    requires
        phases_in_range(units@, phases@),
    ensures
        r@.len() == phases@.len(),
        forall|p: int|
            0 <= p < r@.len() ==> order::ascending(text::texts((#[trigger] r@[p])@)),
        forall|p: int, id: Seq<char>|
            0 <= p < r@.len() ==> (#[trigger] text::texts(r@[p]@).contains(id)
                <==> phase_has_package(units@, phases@[p]@, id)),
{
    let mut r: Vec<Vec<String>> = Vec::new();
    let mut p: usize = 0;
    while p < phases.len()
        invariant
            p <= phases@.len(),
            phases_in_range(units@, phases@),
            r@.len() == p,
            forall|q: int|
                0 <= q < r@.len() ==> order::ascending(text::texts((#[trigger] r@[q])@)),
            forall|q: int, id: Seq<char>|
                0 <= q < r@.len() ==> (#[trigger] text::texts(r@[q]@).contains(id)
                    <==> phase_has_package(units@, phases@[q]@, id)),
        decreases phases@.len() - p,
    {
        let phase = &phases[p];
        let mut ids: Vec<String> = Vec::new();
        let mut i: usize = 0;
        while i < phase.len()
            invariant
                p < phases@.len(),
                phase == phases@[p as int],
                i <= phase@.len(),
                phases_in_range(units@, phases@),
                order::ascending(text::texts(ids@)),
                forall|id: Seq<char>| #[trigger]
                    text::texts(ids@).contains(id) <==> phase_has_package(
                        units@,
                        phase@.take(i as int),
                        id,
                    ),
            decreases phase@.len() - i,
        {
            assert(phases@[p as int]@[i as int] < units@.len());
            let u = &units[phase[i]];
            let ghost before = text::texts(ids@);
            order::insert_ascending(&mut ids, u.pkg_id.as_str());
            proof {
                let upto = phase@.take(i as int);
                let next = phase@.take(i + 1);
                assert forall|id: Seq<char>| #[trigger] text::texts(ids@).contains(id)
                    <==> phase_has_package(units@, next, id) by {
                    assert(before.contains(id) <==> phase_has_package(units@, upto, id));
                    if phase_has_package(units@, upto, id) {
                        let k = choose|k: int|
                            0 <= k < upto.len() && units@[#[trigger] upto[k] as int].pkg_id@ == id;
                        assert(next[k] == upto[k]);
                    }
                    if phase_has_package(units@, next, id) {
                        let k = choose|k: int|
                            0 <= k < next.len() && units@[#[trigger] next[k] as int].pkg_id@ == id;
                        if k < i {
                            assert(upto[k] == next[k]);
                        }
                    }
                    if id == u.pkg_id@ {
                        assert(next[i as int] == phase@[i as int]);
                    }
                }
            }
            i += 1;
        }
        proof {
            assert(phase@.take(i as int) =~= phase@);
        }
        r.push(ids);
        p += 1;
    }
    r
}

/// Unit `j` is unit `i`, or one that `i` depends on, directly or through others.
pub open spec fn is_reached(units: Seq<UnitGraphUnit>, i: int, j: int) -> bool {
    exists|walk: Seq<int>| #[trigger]
        layers::is_walk(unit_deps(units), walk) && walk.first() == i && walk.last() == j
}

/// For each phase the ids of the packages reachable from its units, with those of the
/// units themselves, each once, in ascending order.
pub fn pkg_ids_by_phase(units: &[UnitGraphUnit], phases: &[Vec<usize>]) -> (r: Vec<Vec<String>>)
    requires
        phases_in_range(units@, phases@),
    ensures
        r@.len() == phases@.len(),
        forall|p: int|
            0 <= p < r@.len() ==> order::ascending(text::texts((#[trigger] r@[p])@)),
        forall|p: int, id: Seq<char>|
            0 <= p < r@.len() ==> (#[trigger] text::texts(r@[p]@).contains(id) <==> exists|
                x: int,
                j: int,
            |
                0 <= x < phases@[p]@.len() && #[trigger] is_reached(
                    units@,
                    phases@[p]@[x] as int,
                    j,
                ) && units@[j].pkg_id@ == id),
{
    let mut r: Vec<Vec<String>> = Vec::new();
    let mut p: usize = 0;
    while p < phases.len()
        invariant
            p <= phases@.len(),
            phases_in_range(units@, phases@),
            r@.len() == p,
            forall|q: int|
                0 <= q < r@.len() ==> order::ascending(text::texts((#[trigger] r@[q])@)),
            forall|q: int, id: Seq<char>|
                0 <= q < r@.len() ==> (#[trigger] text::texts(r@[q]@).contains(id) <==> exists|
                    x: int,
                    j: int,
                |
                    0 <= x < phases@[q]@.len() && #[trigger] is_reached(
                        units@,
                        phases@[q]@[x] as int,
                        j,
                    ) && units@[j].pkg_id@ == id),
        decreases phases@.len() - p,
    {
        assert forall|x: int|
            0 <= x < phases@[p as int]@.len() implies #[trigger] phases@[p as int]@[x]
            < units@.len() by {}
        r.push(reached_pkg_ids(units, &phases[p]));
        p += 1;
    }
    r
}

/// The ids of the packages reachable from these units.
fn reached_pkg_ids(units: &[UnitGraphUnit], phase: &Vec<usize>) -> (ids: Vec<String>)
    requires
        forall|x: int| 0 <= x < phase@.len() ==> #[trigger] phase@[x] < units@.len(),
    ensures
        order::ascending(text::texts(ids@)),
        forall|id: Seq<char>| #[trigger]
            text::texts(ids@).contains(id) <==> exists|x: int, j: int|
                0 <= x < phase@.len() && #[trigger] is_reached(units@, phase@[x] as int, j)
                    && units@[j].pkg_id@ == id,
{
    let n: usize = units.len();
    let mut seeds: Vec<bool> = Vec::new();
    let mut j: usize = 0;
    while j < n
        invariant
            j <= n,
            seeds@.len() == j,
            forall|y: int| 0 <= y < j ==> !(#[trigger] seeds@[y]),
        decreases n - j,
    {
        seeds.push(false);
        j += 1;
    }
    let mut x: usize = 0;
    while x < phase.len()
        invariant
            x <= phase@.len(),
            n == units@.len(),
            seeds@.len() == n,
            forall|y: int| 0 <= y < phase@.len() ==> #[trigger] phase@[y] < units@.len(),
            forall|y: int|
                0 <= y < n ==> (#[trigger] seeds@[y] <==> phase@.take(x as int).contains(
                    y as usize,
                )),
        decreases phase@.len() - x,
    {
        let i: usize = phase[x];
        let ghost before = seeds@;
        seeds.set(i, true);
        proof {
            let upto = phase@.take(x as int);
            let next = phase@.take(x + 1);
            assert forall|y: int| 0 <= y < n implies (#[trigger] seeds@[y] <==> next.contains(
                y as usize,
            )) by {
                assert(before[y] <==> upto.contains(y as usize));
                if upto.contains(y as usize) {
                    let k = choose|k: int| 0 <= k < upto.len() && upto[k] == y as usize;
                    assert(next[k] == y as usize);
                }
                assert(next[x as int] == i);
                if next.contains(y as usize) && y != i {
                    let k = choose|k: int| 0 <= k < next.len() && next[k] == y as usize;
                    assert(upto[k] == y as usize);
                }
            }
        }
        x += 1;
    }
    assert(phase@.take(x as int) =~= phase@);
    let marks = reach::mark_reached(units, &seeds);
    let mut ids: Vec<String> = Vec::new();
    j = 0;
    while j < n
        invariant
            j <= n,
            n == units@.len(),
            marks@.len() == n,
            order::ascending(text::texts(ids@)),
            forall|id: Seq<char>| #[trigger]
                text::texts(ids@).contains(id) <==> exists|y: int|
                    0 <= y < j && #[trigger] marks@[y] && units@[y].pkg_id@ == id,
        decreases n - j,
    {
        let ghost before = text::texts(ids@);
        if marks[j] {
            order::insert_ascending(&mut ids, units[j].pkg_id.as_str());
        }
        proof {
            assert forall|id: Seq<char>| #[trigger] text::texts(ids@).contains(id) <==> exists|
                y: int,
            |
                0 <= y < j + 1 && #[trigger] marks@[y] && units@[y].pkg_id@ == id by {
                assert(before.contains(id) <==> exists|y: int|
                    0 <= y < j && #[trigger] marks@[y] && units@[y].pkg_id@ == id);
                if before.contains(id) {
                    let y = choose|y: int|
                        0 <= y < j && #[trigger] marks@[y] && units@[y].pkg_id@ == id;
                    assert(marks@[y]);
                }
                if marks@[j as int] && units@[j as int].pkg_id@ == id {
                    assert(marks@[j as int]);
                }
            }
        }
        j += 1;
    }
    proof {
        assert forall|id: Seq<char>| #[trigger] text::texts(ids@).contains(id) <==> exists|
            x: int,
            j: int,
        |
            0 <= x < phase@.len() && #[trigger] is_reached(units@, phase@[x] as int, j)
                && units@[j].pkg_id@ == id by {
            if text::texts(ids@).contains(id) {
                let y = choose|y: int|
                    0 <= y < n && #[trigger] marks@[y] && units@[y].pkg_id@ == id;
                assert(reach::reached_from(units@, seeds@, y));
                let s = choose|s: int|
                    0 <= s < seeds@.len() && seeds@[s] && #[trigger] is_reached(units@, s, y);
                assert(phase@.contains(s as usize));
                let k = choose|k: int| 0 <= k < phase@.len() && phase@[k] == s as usize;
                assert(is_reached(units@, phase@[k] as int, y));
            }
            if exists|x: int, j: int|
                0 <= x < phase@.len() && #[trigger] is_reached(units@, phase@[x] as int, j)
                    && units@[j].pkg_id@ == id {
                let (x, j) = choose|x: int, j: int|
                    0 <= x < phase@.len() && #[trigger] is_reached(units@, phase@[x] as int, j)
                        && units@[j].pkg_id@ == id;
                let s = phase@[x] as int;
                assert(phase@.contains(phase@[x]));
                assert(seeds@[s]);
                let walk = choose|walk: Seq<int>| #[trigger]
                    layers::is_walk(unit_deps(units@), walk) && walk.first() == s && walk.last()
                        == j;
                assert(0 <= walk[walk.len() - 1] < units@.len());
                assert(reach::reached_from(units@, seeds@, j));
                assert(marks@[j]);
            }
        }
    }
    ids
}

/// A unit is among what is reachable from it, and so is all that a reachable unit
/// depends on.
pub proof fn law_reaching_follows_dependencies(
    units: Seq<UnitGraphUnit>,
    i: int,
    j: int,
    k: int,
)
    requires
        0 <= i < units.len() <= usize::MAX,
    ensures
        is_reached(units, i, i),
        is_reached(units, i, j) && 0 <= k < units[j].dependencies@.len()
            && units[j].dependencies@[k].index < units.len() ==> is_reached(
            units,
            i,
            units[j].dependencies@[k].index as int,
        ),
{
    reach::lemma_reaches_itself(units, i);
    if is_reached(units, i, j) && 0 <= k < units[j].dependencies@.len()
        && units[j].dependencies@[k].index < units.len() {
        assert(reach::consumes(units, j, units[j].dependencies@[k].index as int));
        reach::lemma_reaches_further(units, i, j, units[j].dependencies@[k].index as int);
    }
}

// ---------------------------------------------------------------------------
// Report
// ---------------------------------------------------------------------------

/// The unit is the execution of a build script.
pub open spec fn is_build_script_run(u: UnitGraphUnit) -> bool {
    u.mode@ == "run-custom-build"@
}

/// The unit gets a line of its own in the report.
pub open spec fn is_shown(u: UnitGraphUnit, workspace_only: bool) -> bool {
    !is_build_script_run(u) && (workspace_only ==> text::has_prefix(u.pkg_id@, "path+file://"@))
}

/// The line of one unit: name, version, mode unless it is `build`, features.
pub open spec fn unit_line(u: UnitGraphUnit) -> Seq<char> {
    "  - "@ + u.name@ + match u.pkg_version {
        Some(v) => " v"@ + v@,
        None => Seq::empty(),
    } + (if u.mode@ == "build"@ {
        Seq::empty()
    } else {
        " ("@ + u.mode@ + ")"@
    }) + (if u.features@.len() == 0 {
        Seq::empty()
    } else {
        " ["@ + text::joined(text::texts(u.features@), ","@) + "]"@
    })
}

pub open spec fn phase_label(i: nat, shown: nat, build_script_runs: nat) -> Seq<char> {
    if build_script_runs > 0 {
        "phase "@ + text::decimal(i) + " ("@ + text::decimal(shown) + " rustc + "@
            + text::decimal(build_script_runs) + " build-script runs, parallel):"@
    } else {
        "phase "@ + text::decimal(i) + " ("@ + text::decimal(shown) + " units, parallel):"@
    }
}

/// The units of a phase that get a line.
pub open spec fn shown_units(
    units: Seq<UnitGraphUnit>,
    phase: Seq<usize>,
    workspace_only: bool,
) -> Seq<usize> {
    phase.filter(|x: usize| is_shown(units[x as int], workspace_only))
}

/// The build-script executions of a phase.
pub open spec fn build_script_runs(units: Seq<UnitGraphUnit>, phase: Seq<usize>) -> Seq<usize> {
    phase.filter(|x: usize| is_build_script_run(units[x as int]))
}

/// The lines of one phase: its label, then one line per unit shown.
pub open spec fn phase_lines(
    units: Seq<UnitGraphUnit>,
    phase: Seq<usize>,
    i: nat,
    workspace_only: bool,
) -> Seq<Seq<char>> {
    let shown = shown_units(units, phase, workspace_only);
    seq![phase_label(i, shown.len(), build_script_runs(units, phase).len())] + shown.map_values(
        |x: usize| unit_line(units[x as int]),
    )
}

/// The report on the first `k` phases.
pub open spec fn plan_report(
    units: Seq<UnitGraphUnit>,
    phases: Seq<Seq<usize>>,
    workspace_only: bool,
    k: nat,
) -> Seq<Seq<char>>
    decreases k,
{
    if k == 0 {
        seq![
            "parallel-rustc plan (unit-graph, v0.3.0)"@,
            "units: "@ + text::decimal(layers::total_len(phases)) + "   phases: "@ + text::decimal(
                phases.len(),
            ),
            Seq::empty(),
        ]
    } else {
        plan_report(units, phases, workspace_only, (k - 1) as nat) + phase_lines(
            units,
            phases[k - 1],
            (k - 1) as nat,
            workspace_only,
        )
    }
}

fn unit_line_text(u: &UnitGraphUnit) -> (r: String)
    ensures
        r@ == unit_line(*u),
{
    let mut r = String::new();
    r.append("  - ");
    r.append(u.name.as_str());
    match &u.pkg_version {
        Some(v) => {
            r.append(" v");
            r.append(v.as_str());
        },
        None => {},
    }
    if !text::same(u.mode.as_str(), "build") {
        r.append(" (");
        r.append(u.mode.as_str());
        r.append(")");
    }
    if u.features.len() > 0 {
        r.append(" [");
        r.append(text::join(&u.features, ",").as_str());
        r.append("]");
    }
    assert(r@ =~= unit_line(*u));
    r
}

fn phase_label_text(i: usize, shown: usize, runs: usize) -> (r: String)
    ensures
        r@ == phase_label(i as nat, shown as nat, runs as nat),
{
    let mut r = String::new();
    r.append("phase ");
    r.append(text::decimal_text(i).as_str());
    r.append(" (");
    r.append(text::decimal_text(shown).as_str());
    if runs > 0 {
        r.append(" rustc + ");
        r.append(text::decimal_text(runs).as_str());
        r.append(" build-script runs, parallel):");
    } else {
        r.append(" units, parallel):");
    }
    assert(r@ =~= phase_label(i as nat, shown as nat, runs as nat));
    r
}

/// Appends the lines of one phase.
fn push_phase_lines(
    units: &[UnitGraphUnit],
    phase: &Vec<usize>,
    i: usize,
    workspace_only: bool,
    lines: &mut Vec<String>,
)
    requires
        forall|x: int| 0 <= x < phase@.len() ==> #[trigger] phase@[x] < units@.len(),
    ensures
        text::texts(final(lines)@) == text::texts(old(lines)@) + phase_lines(
            units@,
            phase@,
            i as nat,
            workspace_only,
        ),
{
    let ghost pred = |x: usize| is_shown(units@[x as int], workspace_only);
    let ghost run = |x: usize| is_build_script_run(units@[x as int]);
    let ghost line = |x: usize| unit_line(units@[x as int]);
    let mut shown: Vec<String> = Vec::new();
    let mut runs: usize = 0;
    let mut x: usize = 0;
    while x < phase.len()
        invariant
            x <= phase@.len(),
            forall|y: int| 0 <= y < phase@.len() ==> #[trigger] phase@[y] < units@.len(),
            pred == (|x: usize| is_shown(units@[x as int], workspace_only)),
            run == (|x: usize| is_build_script_run(units@[x as int])),
            line == (|x: usize| unit_line(units@[x as int])),
            runs <= x,
            runs == phase@.take(x as int).filter(run).len(),
            text::texts(shown@) == phase@.take(x as int).filter(pred).map_values(line),
        decreases phase@.len() - x,
    {
        let u = &units[phase[x]];
        let ghost before = text::texts(shown@);
        proof {
            assert(phase@.take(x + 1) =~= phase@.take(x as int).push(phase@[x as int]));
            phase@.take(x as int).lemma_filter_push(phase@[x as int], pred);
            phase@.take(x as int).lemma_filter_push(phase@[x as int], run);
        }
        if text::same(u.mode.as_str(), "run-custom-build") {
            runs += 1;
        } else if !workspace_only || text::starts_with(u.pkg_id.as_str(), "path+file://") {
            shown.push(unit_line_text(u));
            assert(text::texts(shown@) =~= before.push(unit_line(*u)));
            assert(text::texts(shown@) =~= phase@.take(x + 1).filter(pred).map_values(line));
        }
        x += 1;
    }
    assert(phase@.take(x as int) =~= phase@);
    let ghost start = text::texts(lines@);
    let ghost label = phase_label(i as nat, shown@.len(), runs as nat);
    let ghost all = text::texts(shown@);
    assert(all.len() == phase@.filter(pred).len());
    lines.push(phase_label_text(i, shown.len(), runs));
    assert(text::texts(lines@) =~= start.push(label));
    lines.append(&mut shown);
    proof {
        assert(text::texts(lines@) =~= start.push(label) + all);
        assert(start.push(label) + all =~= start + (seq![label] + all));
    }
}

/// The plan as lines of text, one block per phase. With `workspace_only`, units
/// of packages outside the local file tree get no line; build-script executions
/// are only counted.
pub fn plan_lines(
    units: &[UnitGraphUnit],
    phases: &[Vec<usize>],
    workspace_only: bool,
) -> (lines: Vec<String>)
    requires
        phases_in_range(units@, phases@),
        layers::total_len(layers::lists(phases@)) <= usize::MAX,
    ensures
        text::texts(lines@) == plan_report(
            units@,
            layers::lists(phases@),
            workspace_only,
            phases@.len(),
        ),
{
    let ghost all = layers::lists(phases@);
    let mut lines: Vec<String> = Vec::new();
    lines.push("parallel-rustc plan (unit-graph, v0.3.0)".to_owned());
    let mut counts = String::new();
    counts.append("units: ");
    counts.append(text::decimal_text(layers::total_entries(phases)).as_str());
    counts.append("   phases: ");
    counts.append(text::decimal_text(phases.len()).as_str());
    lines.push(counts);
    lines.push(String::new());
    proof {
        assert(counts@ =~= "units: "@ + text::decimal(layers::total_len(all)) + "   phases: "@
            + text::decimal(all.len()));
        assert(text::texts(lines@) =~= plan_report(units@, all, workspace_only, 0));
    }
    let mut p: usize = 0;
    while p < phases.len()
        invariant
            p <= phases@.len(),
            all == layers::lists(phases@),
            phases_in_range(units@, phases@),
            text::texts(lines@) == plan_report(units@, all, workspace_only, p as nat),
        decreases phases@.len() - p,
    {
        assert forall|x: int| 0 <= x < phases@[p as int]@.len() implies #[trigger] phases@[p as int]@[x]
            < units@.len() by {}
        push_phase_lines(units, &phases[p], p, workspace_only, &mut lines);
        p += 1;
    }
    lines
}

} // verus!
