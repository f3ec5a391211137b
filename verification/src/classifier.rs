//! Unit-graph pre-classifier for the metadata-pipelining coordinator.
//!
//! Linking needs `.rlib` files, type-checking only needs `.rmeta`. Before a build
//! runs, the units that will be linked during Cargo's forward pass, and
//! everything they transitively consume, are marked as needing a full `.rlib`;
//! all other crates may have their code generation deferred.
//!
//! A unit is linked during the forward pass if
//!   * its mode is `run-custom-build` (build-script execution), or
//!   * its mode is `build` and its target kinds name a proc-macro, a binary, or
//!     one of `cdylib`, `dylib`, `staticlib`.

use vstd::prelude::*;
use vstd::string::StringExecFns;
use crate::names::NameSet;
use crate::unit_graph::{self, UnitGraphUnit};
use crate::{reach, text};

verus! {

/// Result of pre-classifying a unit graph.
#[derive(Debug, Clone)]
pub struct ClassifiedUnits {
    /// Crate names (underscore-normalized) that need a real `.rlib` produced
    /// during Cargo's forward pass: pass straight through to rustc.
    pub needs_rlib: NameSet,
    /// Crate names safe to defer (metadata-only forward pass + parallel codegen
    /// replay afterwards).
    pub defer_codegen: NameSet,
    /// Total number of units cargo planned (informational).
    pub total_units: usize,
}

// ---------------------------------------------------------------------------
// Model
// ---------------------------------------------------------------------------

/// One of the unit's target kinds is `kind`.
pub open spec fn has_kind(u: UnitGraphUnit, kind: Seq<char>) -> bool {
    text::texts(u.kind@).contains(kind)
}

/// The unit is linked during Cargo's forward pass.
pub open spec fn is_seed(u: UnitGraphUnit) -> bool {
    ||| u.mode@ == "run-custom-build"@
    ||| u.mode@ == "build"@ && {
        ||| has_kind(u, "proc-macro"@)
        ||| has_kind(u, "bin"@)
        ||| has_kind(u, "cdylib"@)
        ||| has_kind(u, "dylib"@)
        ||| has_kind(u, "staticlib"@)
    }
}

/// Unit `i` is linked, or transitively consumed by a unit that is.
pub open spec fn is_linked(units: Seq<UnitGraphUnit>, i: int) -> bool {
    exists|s: int|
        0 <= s < units.len() && is_seed(units[s]) && #[trigger] unit_graph::is_reached(units, s, i)
}

/// The name under which rustc sees a crate.
pub open spec fn crate_name_of(name: Seq<char>) -> Seq<char> {
    text::replaced(name, '-', '_')
}

/// Some unit compiles a crate under this name, and it is linked or not as asked.
pub open spec fn compiled_as(
    units: Seq<UnitGraphUnit>,
    upto: int,
    linked: bool,
    name: Seq<char>,
) -> bool {
    exists|i: int|
        0 <= i < upto && (#[trigger] units[i]).mode@ == "build"@ && is_linked(units, i) == linked
            && crate_name_of(units[i].name@) == name
}

/// `c` classifies `units`: a crate needs its `.rlib` if some unit that compiles it
/// is linked, and is deferred if it is compiled but none of its units is linked.
pub open spec fn classifies(units: Seq<UnitGraphUnit>, c: ClassifiedUnits) -> bool {
    &&& c.needs_rlib.wf()
    &&& c.defer_codegen.wf()
    &&& c.total_units == units.len()
    &&& forall|name: Seq<char>| #[trigger]
        c.needs_rlib@.contains(name) <==> compiled_as(units, units.len() as int, true, name)
    &&& forall|name: Seq<char>| #[trigger]
        c.defer_codegen@.contains(name) <==> compiled_as(units, units.len() as int, false, name)
            && !compiled_as(units, units.len() as int, true, name)
}

// ---------------------------------------------------------------------------
// Laws
// ---------------------------------------------------------------------------

/// No crate is both needed and deferred.
pub proof fn law_needed_and_deferred_are_disjoint(
    units: Seq<UnitGraphUnit>,
    c: ClassifiedUnits,
    name: Seq<char>,
)
    requires
        classifies(units, c),
    ensures
        !(c.needs_rlib@.contains(name) && c.defer_codegen@.contains(name)),
{
}

/// Every crate that some unit compiles is needed or deferred, and no other name is.
pub proof fn law_every_compiled_crate_is_classified(
    units: Seq<UnitGraphUnit>,
    c: ClassifiedUnits,
    name: Seq<char>,
)
    requires
        classifies(units, c),
    ensures
        c.needs_rlib@.contains(name) || c.defer_codegen@.contains(name) <==> exists|i: int|
            0 <= i < units.len() && (#[trigger] units[i]).mode@ == "build"@ && crate_name_of(
                units[i].name@,
            ) == name,
{
    if exists|i: int|
        0 <= i < units.len() && (#[trigger] units[i]).mode@ == "build"@ && crate_name_of(
            units[i].name@,
        ) == name {
        let i = choose|i: int|
            0 <= i < units.len() && (#[trigger] units[i]).mode@ == "build"@ && crate_name_of(
                units[i].name@,
            ) == name;
        assert(compiled_as(units, units.len() as int, is_linked(units, i), name));
    }
}

/// What a linked unit consumes is linked too: if it is compiled, its crate needs
/// its `.rlib`.
pub proof fn law_linking_is_closed(
    units: Seq<UnitGraphUnit>,
    c: ClassifiedUnits,
    i: int,
    d: int,
)
    requires
        classifies(units, c),
        is_linked(units, i),
        reach::consumes(units, i, d),
        0 <= d < units.len(),
    ensures
        is_linked(units, d),
        units[d].mode@ == "build"@ ==> c.needs_rlib@.contains(crate_name_of(units[d].name@)),
{
    let s = choose|s: int|
        0 <= s < units.len() && is_seed(units[s]) && #[trigger] unit_graph::is_reached(units, s, i);
    reach::lemma_reaches_further(units, s, i, d);
    if units[d].mode@ == "build"@ {
        assert(compiled_as(units, units.len() as int, true, crate_name_of(units[d].name@)));
    }
}

/// Where nothing is linked, every compiled crate is deferred.
pub proof fn law_without_seeds_all_are_deferred(
    units: Seq<UnitGraphUnit>,
    c: ClassifiedUnits,
)
    requires
        classifies(units, c),
        forall|i: int| 0 <= i < units.len() ==> !is_seed(#[trigger] units[i]),
    ensures
        c.needs_rlib@ =~= Set::<Seq<char>>::empty(),
        forall|i: int|
            0 <= i < units.len() && (#[trigger] units[i]).mode@ == "build"@
                ==> c.defer_codegen@.contains(crate_name_of(units[i].name@)),
{
    assert forall|i: int| !is_linked(units, i) by {
        if is_linked(units, i) {
            let s = choose|s: int|
                0 <= s < units.len() && is_seed(units[s]) && #[trigger] unit_graph::is_reached(
                    units,
                    s,
                    i,
                );
            assert(is_seed(units[s]));
        }
    }
    assert forall|name: Seq<char>| !compiled_as(units, units.len() as int, true, name) by {}
    assert forall|i: int|
        0 <= i < units.len() && (#[trigger] units[i]).mode@ == "build"@ implies c.defer_codegen@.contains(
        crate_name_of(units[i].name@),
    ) by {
        assert(compiled_as(units, units.len() as int, false, crate_name_of(units[i].name@)));
    }
}

// ---------------------------------------------------------------------------
// Marking
// ---------------------------------------------------------------------------

/// Whether one of the unit's target kinds is `kind`.
fn kind_is(u: &UnitGraphUnit, kind: &str) -> (r: bool)
    ensures
        r == has_kind(*u, kind@),
{
    let ghost all = text::texts(u.kind@);
    let mut i: usize = 0;
    while i < u.kind.len()
        invariant
            i <= u.kind@.len(),
            all == text::texts(u.kind@),
            forall|j: int| 0 <= j < i ==> all[j] != kind@,
        decreases u.kind@.len() - i,
    {
        if text::same(u.kind[i].as_str(), kind) {
            assert(all[i as int] == kind@);
            return true;
        }
        i += 1;
    }
    false
}

/// Whether the unit is linked during Cargo's forward pass.
pub fn is_link_seed(u: &UnitGraphUnit) -> (r: bool)
    ensures
        r == is_seed(*u),
{
    if text::same(u.mode.as_str(), "run-custom-build") {
        return true;
    }
    if text::same(u.mode.as_str(), "build") {
        return kind_is(u, "proc-macro") || kind_is(u, "bin") || kind_is(u, "cdylib") || kind_is(
            u,
            "dylib",
        ) || kind_is(u, "staticlib");
    }
    false
}

/// rustc sees crate names with `-` written as `_`.
pub fn normalize_crate_name(name: &str) -> (r: String)
    ensures
        r@ == crate_name_of(name@),
{
    text::replace_char(name, '-', '_')
}

/// Marks the linked units and everything that they transitively consume.
fn mark_linked(units: &[UnitGraphUnit]) -> (marks: Vec<bool>)
    ensures
        marks@.len() == units@.len(),
        forall|i: int| 0 <= i < units@.len() ==> #[trigger] marks@[i] == is_linked(units@, i),
{
    let n: usize = units.len();
    let mut seeds: Vec<bool> = Vec::new();
    let mut i: usize = 0;
    while i < n
        invariant
            i <= n,
            n == units@.len(),
            seeds@.len() == i,
            forall|j: int| 0 <= j < i ==> #[trigger] seeds@[j] == is_seed(units@[j]),
        decreases n - i,
    {
        seeds.push(is_link_seed(&units[i]));
        i += 1;
    }
    let marks = reach::mark_reached(units, &seeds);
    proof {
        assert forall|j: int| reach::reached_from(units@, seeds@, j) <==> #[trigger] is_linked(
            units@,
            j,
        ) by {
            if reach::reached_from(units@, seeds@, j) {
                let s = choose|s: int|
                    0 <= s < seeds@.len() && seeds@[s] && #[trigger] unit_graph::is_reached(
                        units@,
                        s,
                        j,
                    );
                assert(seeds@[s] == is_seed(units@[s]));
            }
            if is_linked(units@, j) {
                let s = choose|s: int|
                    0 <= s < units@.len() && is_seed(units@[s]) && #[trigger] unit_graph::is_reached(
                        units@,
                        s,
                        j,
                    );
                assert(seeds@[s] == is_seed(units@[s]));
            }
        }
    }
    marks
}

/// Classifies units; what `needs_rlib` and `defer_codegen` hold, [`classifies`] says.
pub fn classify_units(units: &[UnitGraphUnit]) -> (c: ClassifiedUnits)
    ensures
        classifies(units@, c),
{
    let n: usize = units.len();
    let marks = mark_linked(units);
    let mut needs_rlib = NameSet::new();
    let mut defer_codegen = NameSet::new();
    let mut i: usize = 0;
    while i < n
        invariant
            i <= n,
            n == units@.len(),
            marks@.len() == n,
            forall|j: int| 0 <= j < n ==> #[trigger] marks@[j] == is_linked(units@, j),
            needs_rlib.wf(),
            defer_codegen.wf(),
            forall|name: Seq<char>| #[trigger]
                needs_rlib@.contains(name) <==> compiled_as(units@, i as int, true, name),
            forall|name: Seq<char>| #[trigger]
                defer_codegen@.contains(name) <==> compiled_as(units@, i as int, false, name),
        decreases n - i,
    {
        let u = &units[i];
        let ghost needs0 = needs_rlib@;
        let ghost defer0 = defer_codegen@;
        let compiled = text::same(u.mode.as_str(), "build");
        if compiled {
            let name = normalize_crate_name(u.name.as_str());
            if marks[i] {
                needs_rlib.insert(name.as_str());
            } else {
                defer_codegen.insert(name.as_str());
            }
        }
        proof {
            assert forall|name: Seq<char>, linked: bool| #[trigger]
                compiled_as(units@, i + 1, linked, name) <==> compiled_as(
                    units@,
                    i as int,
                    linked,
                    name,
                ) || (compiled && is_linked(units@, i as int) == linked && crate_name_of(
                    u.name@,
                ) == name) by {
                if compiled_as(units@, i + 1, linked, name) {
                    let j = choose|j: int|
                        0 <= j < i + 1 && (#[trigger] units@[j]).mode@ == "build"@ && is_linked(
                            units@,
                            j,
                        ) == linked && crate_name_of(units@[j].name@) == name;
                    if j < i {
                        assert(compiled_as(units@, i as int, linked, name));
                    }
                }
                if compiled_as(units@, i as int, linked, name) {
                    let j = choose|j: int|
                        0 <= j < i && (#[trigger] units@[j]).mode@ == "build"@ && is_linked(
                            units@,
                            j,
                        ) == linked && crate_name_of(units@[j].name@) == name;
                    assert(units@[j].mode@ == "build"@);
                }
                if compiled && is_linked(units@, i as int) == linked && crate_name_of(u.name@)
                    == name {
                    assert(units@[i as int].mode@ == "build"@);
                }
            }
            assert forall|name: Seq<char>| #[trigger] needs_rlib@.contains(name) <==> compiled_as(
                units@,
                i + 1,
                true,
                name,
            ) by {
                assert(needs0.contains(name) <==> compiled_as(units@, i as int, true, name));
            }
            assert forall|name: Seq<char>| #[trigger] defer_codegen@.contains(name)
                <==> compiled_as(units@, i + 1, false, name) by {
                assert(defer0.contains(name) <==> compiled_as(units@, i as int, false, name));
            }
        }
        i += 1;
    }
    // A name may be compiled by several units; if one of them is linked, it is
    // needed. Deferring is the opt-in.
    let ghost all_deferred = defer_codegen@;
    let mut x: usize = 0;
    while x < needs_rlib.names.len()
        invariant
            x <= needs_rlib.names@.len(),
            needs_rlib.wf(),
            defer_codegen.wf(),
            forall|name: Seq<char>| #[trigger]
                defer_codegen@.contains(name) <==> all_deferred.contains(name) && !text::texts(
                    needs_rlib.names@,
                ).take(x as int).contains(name),
        decreases needs_rlib.names@.len() - x,
    {
        let ghost before = defer_codegen@;
        defer_codegen.remove(needs_rlib.names[x].as_str());
        proof {
            let all = text::texts(needs_rlib.names@);
            assert(all.take(x + 1) =~= all.take(x as int).push(all[x as int]));
            assert forall|name: Seq<char>| #[trigger] defer_codegen@.contains(name)
                <==> all_deferred.contains(name) && !all.take(x + 1).contains(name) by {
                assert(before.contains(name) <==> all_deferred.contains(name) && !all.take(
                    x as int,
                ).contains(name));
                if all.take(x as int).contains(name) {
                    let k = choose|k: int| 0 <= k < x && all.take(x as int)[k] == name;
                    assert(all.take(x + 1)[k] == name);
                }
                if all[x as int] == name {
                    assert(all.take(x + 1)[x as int] == name);
                }
                let longer = all.take(x as int).push(all[x as int]);
                if longer.contains(name) && all[x as int] != name {
                    let k = choose|k: int| 0 <= k < longer.len() && longer[k] == name;
                    assert(all.take(x as int)[k] == name);
                }
            }
        }
        x += 1;
    }
    proof {
        let all = text::texts(needs_rlib.names@);
        assert(all.take(x as int) =~= all);
        assert forall|name: Seq<char>| #[trigger] defer_codegen@.contains(name) <==> compiled_as(
            units@,
            n as int,
            false,
            name,
        ) && !compiled_as(units@, n as int, true, name) by {
            assert(needs_rlib@.contains(name) <==> all.contains(name));
            assert(all_deferred.contains(name) <==> compiled_as(units@, n as int, false, name));
        }
    }
    ClassifiedUnits { needs_rlib, defer_codegen, total_units: n }
}

/// Classifies the units that cargo reported, or passes its error on.
pub fn classify_from_unit_graph(
    fetched: Result<Vec<UnitGraphUnit>, String>,
) -> (r: Result<ClassifiedUnits, String>)
    ensures
        match (fetched, r) {
            (Ok(units), Ok(c)) => classifies(units@, c),
            (Err(e), Err(m)) => m@ == "fetch unit-graph for classification: "@ + e@,
            _ => false,
        },
{
    match fetched {
        Ok(units) => Ok(classify_units(units.as_slice())),
        Err(e) => {
            let mut m = String::new();
            m.append("fetch unit-graph for classification: ");
            m.append(e.as_str());
            assert(m@ =~= "fetch unit-graph for classification: "@ + e@);
            Err(m)
        },
    }
}

} // verus!
