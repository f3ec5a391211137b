//! Units of the unit graph: what their package ids say, what they wait for, and which
//! crates have to be linked.

use vstd::prelude::*;
use crate::classifier::{self, ClassifiedUnits};
use crate::laws::texts;
use crate::unit_graph::{self, DebugInfo, RawUnit, UnitGraphUnit};
use crate::{layers, order, reach, text};

verus! {

// ---------------------------------------------------------------------------
// Package ids
// ---------------------------------------------------------------------------

/// A name in a package id: neither a path separator nor the mark before the version.
pub open spec fn is_segment(name: Seq<char>) -> bool {
    name.len() > 0 && !name.contains('/') && !name.contains('\\') && !name.contains('#')
}

proof fn lemma_free_end(front: Seq<char>, sep: char, name: Seq<char>)
    requires
        sep == '/' || sep == '\\',
        !name.contains('/'),
        !name.contains('\\'),
    ensures
        unit_graph::separator_free_end(front + seq![sep] + name) == name,
        unit_graph::separator_free_end(name) == name,
    decreases name.len(),
{
    let all = front + seq![sep] + name;
    if name.len() == 0 {
        assert(all.last() == sep);
        assert(name =~= Seq::<char>::empty());
    } else {
        let rest = name.drop_last();
        assert forall|j: int| 0 <= j < rest.len() implies rest[j] != '/' && rest[j] != '\\' by {
            assert(name.contains(name[j]));
        }
        lemma_free_end(front, sep, rest);
        assert(all.drop_last() =~= front + seq![sep] + rest);
        assert(all.last() == name.last());
        assert(name.contains(name.last()));
        assert(rest.push(name.last()) =~= name);
    }
}

proof fn lemma_no_separator_at_end(s: Seq<char>, ends: Seq<char>)
    requires
        s.len() > 0,
        s.last() != '/' && s.last() != '\\',
        forall|i: int| 0 <= i < ends.len() ==> #[trigger] ends[i] == '/' || ends[i] == '\\',
    ensures
        unit_graph::without_separators(s + ends) == s,
    decreases ends.len(),
{
    let all = s + ends;
    if ends.len() == 0 {
        assert(all =~= s);
    } else {
        assert(all.last() == ends[ends.len() - 1]);
        assert(all.drop_last() =~= s + ends.drop_last());
        lemma_no_separator_at_end(s, ends.drop_last());
    }
}

proof fn lemma_last_segment(url: Seq<char>, sep: char, name: Seq<char>, ends: Seq<char>)
    requires
        sep == '/' || sep == '\\',
        is_segment(name),
        forall|i: int| 0 <= i < ends.len() ==> #[trigger] ends[i] == '/' || ends[i] == '\\',
    ensures
        unit_graph::last_segment(url + seq![sep] + name + ends) == name,
        unit_graph::last_segment(name + ends) == name,
{
    let s = url + seq![sep] + name;
    assert(s.last() == name.last());
    assert(name.contains(name.last()));
    lemma_no_separator_at_end(s, ends);
    lemma_no_separator_at_end(name, ends);
    lemma_free_end(url, sep, name);
}

/// The id of a package at a path or in a repository: the last part of the address is its
/// name, what follows the `#` its version. Separators at the end of the address do not
/// count; without a version there is none.
pub proof fn law_address_ids(
    url: Seq<char>,
    sep: char,
    name: Seq<char>,
    ends: Seq<char>,
    version: Seq<char>,
)
    requires
        sep == '/' || sep == '\\',
        is_segment(name),
        forall|i: int| 0 <= i < ends.len() ==> #[trigger] ends[i] == '/' || ends[i] == '\\',
        !version.contains('#') && !version.contains('@'),
    ensures
        version.len() > 0 ==> unit_graph::pkg_id_parts(
            url + seq![sep] + name + seq!['#'] + version,
        ) == (name, Some(version)),
        version.len() > 0 ==> unit_graph::pkg_id_parts(
            url + seq![sep] + name + ends + seq!['#'] + version,
        ) == (name, Some(version)),
        version.len() > 0 ==> unit_graph::pkg_id_parts(name + seq!['#'] + version) == (
            name,
            Some(version),
        ),
        version.len() == 0 ==> unit_graph::pkg_id_parts(
            url + seq![sep] + name + ends + seq!['#'] + version,
        ) == (name, None::<Seq<char>>),
{
    lemma_last_segment(url, sep, name, ends);
    lemma_last_segment(url, sep, name, Seq::empty());
    assert(url + seq![sep] + name + Seq::<char>::empty() =~= url + seq![sep] + name);
    assert(name + Seq::<char>::empty() =~= name);
    texts::law_cut_last(url + seq![sep] + name, '#', version, version);
    texts::law_cut_last(url + seq![sep] + name + ends, '#', version, version);
    texts::law_cut_last(name, '#', version, version);
    text::lemma_cut_none(version, '@');
}

/// The id of a package of a registry: name and version stand behind the `#`.
pub proof fn law_registry_ids(url: Seq<char>, name: Seq<char>, version: Seq<char>)
    requires
        !name.contains('#'),
        !version.contains('#') && !version.contains('@'),
    ensures
        unit_graph::pkg_id_parts(url + seq!['#'] + name + seq!['@'] + version) == (
            name,
            Some(version),
        ),
{
    let tail = name + seq!['@'] + version;
    assert(url + seq!['#'] + name + seq!['@'] + version =~= url + seq!['#'] + tail);
    assert forall|j: int| 0 <= j < tail.len() implies tail[j] != '#' by {
        if j < name.len() {
            assert(name.contains(name[j]));
        } else if j > name.len() {
            assert(version.contains(version[j - name.len() - 1]));
        }
    }
    texts::law_cut_last(url, '#', tail, tail);
    texts::law_cut_last(name, '@', version, tail);
}

proof fn lemma_leading_word(word: Seq<char>, rest: Seq<char>)
    requires
        forall|i: int| 0 <= i < word.len() ==> !text::is_white(#[trigger] word[i]),
        rest.len() > 0 ==> text::is_white(rest[0]),
    ensures
        unit_graph::leading_word(word + rest) == word,
    decreases word.len(),
{
    let all = word + rest;
    if word.len() == 0 {
        assert(all =~= rest);
        assert(word =~= Seq::<char>::empty());
    } else {
        let later = word.drop_first();
        assert forall|i: int| 0 <= i < later.len() implies !text::is_white(#[trigger] later[i]) by {
            assert(later[i] == word[i + 1]);
        }
        lemma_leading_word(later, rest);
        assert(all.drop_first() =~= later + rest);
        assert(all.first() == word[0]);
        assert(seq![word[0]] + later =~= word);
    }
}

/// An id of words: the first is the name, the second the version, and what follows does
/// not count. An id of one word is the name, without a version.
pub proof fn law_worded_ids(name: Seq<char>, version: Seq<char>, rest: Seq<char>)
    requires
        !name.contains('#') && !name.contains(' '),
        version.len() > 0,
        forall|i: int| 0 <= i < version.len() ==> !text::is_white(#[trigger] version[i]),
        !version.contains('#') && !rest.contains('#'),
        rest.len() > 0 ==> rest[0] == ' ',
    ensures
        unit_graph::pkg_id_parts(name + seq![' '] + version + rest) == (name, Some(version)),
        unit_graph::pkg_id_parts(name) == (name, None::<Seq<char>>),
{
    let tail = version + rest;
    let id = name + seq![' '] + version + rest;
    assert(id =~= name + seq![' '] + tail);
    assert forall|j: int| 0 <= j < id.len() implies id[j] != '#' by {
        let a = name.len();
        let b = a + 1 + version.len();
        if j < a {
            assert(name.contains(name[j]));
        } else if a < j < b {
            assert(version.contains(version[j - a - 1]));
        } else if j >= b {
            assert(rest.contains(rest[j - b]));
        }
    }
    text::lemma_cut_none(id, '#');
    text::lemma_cut_none(name, '#');
    texts::law_cut_first(name, ' ', tail, name);
    texts::law_white_space(' ');
    assert(tail.first() == version[0]);
    assert(text::trim_front(tail) == tail);
    lemma_leading_word(version, rest);
}

// ---------------------------------------------------------------------------
// Units
// ---------------------------------------------------------------------------

/// A unit keeps what the unit graph says of it.
pub proof fn law_units_keep_what_is_said_of_them(raw: RawUnit, u: UnitGraphUnit)
    requires
        unit_graph::describes(raw, u),
    ensures
        u.pkg_id@ == raw.pkg_id@,
        u.name@ == raw.target.name@,
        u.src_path@ == raw.target.src_path@,
        u.edition@ == raw.target.edition@,
        text::texts(u.crate_types@) == text::texts(raw.target.crate_types@),
        text::texts(u.kind@) == text::texts(raw.target.kind@),
        u.mode@ == raw.mode@,
        text::texts(u.features@) == text::texts(raw.features@),
        u.opt_level@ == raw.profile.opt_level@,
        u.debuginfo == raw.profile.debuginfo,
        u.debug_assertions == raw.profile.debug_assertions,
        u.incremental == raw.profile.incremental,
        u.panic@ == raw.profile.panic@,
        u.dependencies@ == raw.dependencies@,
{
}

/// The package name of a unit at a path or in a repository is the last part of the
/// address, and its version is what the id says.
pub proof fn law_units_have_package_names(
    raw: RawUnit,
    u: UnitGraphUnit,
    url: Seq<char>,
    name: Seq<char>,
    version: Seq<char>,
)
    requires
        unit_graph::describes(raw, u),
        is_segment(name),
        version.len() > 0,
        !version.contains('#') && !version.contains('@'),
        raw.pkg_id@ == url + seq!['/'] + name + seq!['#'] + version || raw.pkg_id@ == url + seq![
            '#',
        ] + name + seq!['@'] + version,
    ensures
        u.pkg_name@ == name,
        text::optional(u.pkg_version) == Some(version),
{
    law_address_ids(url, '/', name, Seq::empty(), version);
    law_registry_ids(url, name, version);
}

/// A level of debug information given as a number is that number, as far as 32 bits
/// hold it; a number that is no integer, or nothing, is no debug information.
pub proof fn law_numbered_debug_levels(n: u64)
    ensures
        n < 0x1_0000_0000 ==> unit_graph::debug_level(DebugInfo::Number(Some(n))) == Some(n as u32),
        n >= 0x1_0000_0000 ==> unit_graph::debug_level(DebugInfo::Number(Some(n)))
            == unit_graph::debug_level(DebugInfo::Number(Some((n - 0x1_0000_0000) as u64))),
        unit_graph::debug_level(DebugInfo::Number(None)) == Some(0u32),
        unit_graph::debug_level(DebugInfo::Null) == Some(0u32),
        unit_graph::debug_level(DebugInfo::Flag(true)) == Some(2u32),
        unit_graph::debug_level(DebugInfo::Flag(false)) == Some(0u32),
        unit_graph::debug_level(DebugInfo::Other) is None,
{
}

/// Named levels: two names are those of some debug information, two those of all of it,
/// the numbers one and two may be texts, and every other name is that of none.
pub proof fn law_named_debug_levels(name: Seq<char>, value: String)
    ensures
        unit_graph::debug_level(DebugInfo::Text(value)) == Some(
            unit_graph::named_debug_level(value@),
        ),
        unit_graph::named_debug_level(name) == 1 <==> (name == "line-tables-only"@ || name
            == "limited"@ || name == "1"@),
        unit_graph::named_debug_level(name) == 2 <==> (name == "full"@ || name == "true"@ || name
            == "2"@),
        unit_graph::named_debug_level(name) <= 2,
{
    reveal_strlit("line-tables-only");
    reveal_strlit("limited");
    reveal_strlit("1");
    reveal_strlit("full");
    reveal_strlit("true");
    reveal_strlit("2");
    assert("limited"@[0] == 'l');
    assert("line-tables-only"@[0] == 'l');
    assert("full"@[0] == 'f');
    assert("true"@[0] == 't');
    assert("1"@[0] == '1');
    assert("2"@[0] == '2');
}

/// A unit waits for exactly the units that it names as dependencies.
pub proof fn law_units_wait_for_what_they_name(units: Seq<UnitGraphUnit>, i: int, d: int)
    requires
        units.len() <= usize::MAX,
        0 <= i < units.len(),
        0 <= d < units.len(),
    ensures
        unit_graph::unit_deps(units)[i].contains(d) <==> exists|k: int|
            0 <= k < units[i].dependencies@.len() && (#[trigger] units[i].dependencies@[k]).index
                == d,
{
    reach::lemma_consumes_is_edge(units, i, d);
}

/// What is reached from a unit is the least set of units that holds it and, with a unit,
/// what this names as dependencies.
pub proof fn law_reached_is_least(units: Seq<UnitGraphUnit>, within: Set<int>, i: int, j: int)
    requires
        units.len() <= usize::MAX,
        unit_graph::is_reached(units, i, j),
        within.contains(i),
        forall|a: int, k: int|
            within.contains(a) && 0 <= a < units.len() && 0 <= k < units[a].dependencies@.len()
                && (#[trigger] units[a].dependencies@[k]).index < units.len() ==> within.contains(
                units[a].dependencies@[k].index as int,
            ),
    ensures
        0 <= j < units.len(),
        within.contains(j),
{
    let walk = choose|walk: Seq<int>| #[trigger]
        layers::is_walk(unit_graph::unit_deps(units), walk) && walk.first() == i && walk.last()
            == j;
    lemma_walk_stays(units, within, walk, walk.len() - 1);
    assert(0 <= walk[walk.len() - 1] < units.len());
}

proof fn lemma_walk_stays(units: Seq<UnitGraphUnit>, within: Set<int>, walk: Seq<int>, x: int)
    requires
        units.len() <= usize::MAX,
        layers::is_walk(unit_graph::unit_deps(units), walk),
        0 <= x < walk.len(),
        within.contains(walk[0]),
        forall|a: int, k: int|
            within.contains(a) && 0 <= a < units.len() && 0 <= k < units[a].dependencies@.len()
                && (#[trigger] units[a].dependencies@[k]).index < units.len() ==> within.contains(
                units[a].dependencies@[k].index as int,
            ),
    ensures
        within.contains(walk[x]),
    decreases x,
{
    if x > 0 {
        lemma_walk_stays(units, within, walk, x - 1);
        let a = walk[x - 1];
        let d = walk[x - 1 + 1];
        assert(0 <= a < units.len());
        assert(0 <= walk[x] < units.len());
        assert(unit_graph::unit_deps(units)[walk[x - 1]].contains(walk[x - 1 + 1]));
        law_units_wait_for_what_they_name(units, a, d);
        let k = choose|k: int|
            0 <= k < units[a].dependencies@.len() && (#[trigger] units[a].dependencies@[k]).index
                == d;
        assert(within.contains(units[a].dependencies@[k].index as int));
    }
}

/// The phases are refused for an unknown dependency if and only if some unit names one.
pub proof fn law_unknown_units(units: Seq<UnitGraphUnit>)
    ensures
        unit_graph::has_dangling(units) <==> exists|i: int, k: int|
            0 <= i < units.len() && 0 <= k < units[i].dependencies@.len() && (
            #[trigger] units[i].dependencies@[k]).index >= units.len(),
{
    if exists|i: int, k: int|
        0 <= i < units.len() && 0 <= k < units[i].dependencies@.len() && (
        #[trigger] units[i].dependencies@[k]).index >= units.len() {
        let (i, k) = choose|i: int, k: int|
            0 <= i < units.len() && 0 <= k < units[i].dependencies@.len() && (
            #[trigger] units[i].dependencies@[k]).index >= units.len();
        assert(unit_graph::dangling_at(units, i, k));
    }
    if unit_graph::has_dangling(units) {
        let (i, k) = choose|i: int, k: int| unit_graph::dangling_at(units, i, k);
        assert(units[i].dependencies@[k].index >= units.len());
    }
}

/// The unit and the dependency that an unknown one is reported with are the first such.
pub proof fn law_first_unknown_unit(
    units: Seq<UnitGraphUnit>,
    i: int,
    k: int,
    i2: int,
    k2: int,
)
    requires
        unit_graph::first_dangling_at(units, i, k),
        0 <= i2 < units.len(),
        0 <= k2 < units[i2].dependencies@.len(),
        units[i2].dependencies@[k2].index >= units.len(),
    ensures
        0 <= i <= i2,
        i == i2 ==> 0 <= k <= k2,
        units[i].dependencies@[k].index >= units.len(),
{
    assert(unit_graph::dangling_at(units, i2, k2));
}

/// The units of a phase stand in the order of package name, name and mode; those that
/// agree in all three stand in the first phase as they were listed.
pub proof fn law_phases_list_units_in_order(
    units: Seq<UnitGraphUnit>,
    phases: Seq<Seq<usize>>,
    p: int,
    x: int,
    y: int,
)
    requires
        layers::ordered(unit_graph::dep_lists(units), unit_graph::sort_keys(units), phases),
        0 <= p < phases.len(),
        0 <= x < y < phases[p].len(),
        phases[p][x] < units.len(),
        phases[p][y] < units.len(),
    ensures
        ({
            let u = units[phases[p][x] as int];
            let v = units[phases[p][y] as int];
            ||| order::text_lt(u.pkg_name@, v.pkg_name@)
            ||| u.pkg_name@ == v.pkg_name@ && order::text_lt(u.name@, v.name@)
            ||| u.pkg_name@ == v.pkg_name@ && u.name@ == v.name@ && order::text_lt(
                u.mode@,
                v.mode@,
            )
            ||| u.pkg_name@ == v.pkg_name@ && u.name@ == v.name@ && u.mode@ == v.mode@ && (p == 0
                ==> phases[p][x] < phases[p][y])
        }),
{
    let keys = unit_graph::sort_keys(units);
    let a = phases[p][x];
    let b = phases[p][y];
    let u = units[a as int];
    let v = units[b as int];
    assert(layers::precedes(unit_graph::dep_lists(units), keys, phases, p, a, b));
    let ku = seq![u.pkg_name@, u.name@, u.mode@];
    let kv = seq![v.pkg_name@, v.name@, v.mode@];
    assert(keys[a as int] == ku && keys[b as int] == kv);
    assert(ku[0] == u.pkg_name@ && ku[1] == u.name@ && ku[2] == u.mode@);
    assert(kv[0] == v.pkg_name@ && kv[1] == v.name@ && kv[2] == v.mode@);
    if order::row_lt(ku, kv) {
        let k = choose|k: int| order::row_lt_at(ku, kv, k);
        assert(0 <= k < 3);
    }
}

/// A package is listed with a phase if and only if one of the phase's units is of it.
pub proof fn law_packages_of_a_phase(
    units: Seq<UnitGraphUnit>,
    phase: Seq<usize>,
    id: Seq<char>,
)
    ensures
        unit_graph::phase_has_package(units, phase, id) <==> phase.map_values(
            |x: usize| units[x as int].pkg_id@,
        ).contains(id),
{
    let ids = phase.map_values(|x: usize| units[x as int].pkg_id@);
    if unit_graph::phase_has_package(units, phase, id) {
        let i = choose|i: int|
            0 <= i < phase.len() && units[#[trigger] phase[i] as int].pkg_id@ == id;
        assert(ids[i] == id);
    }
    if ids.contains(id) {
        let i = choose|i: int| 0 <= i < ids.len() && ids[i] == id;
        assert(units[phase[i] as int].pkg_id@ == id);
    }
}

// ---------------------------------------------------------------------------
// Linking
// ---------------------------------------------------------------------------

/// The crate of every unit that links, and of every unit that one needs, is needed as a
/// library, under its name with underscores: a unit links if it runs a build script, or if
/// it builds a procedural macro, a program or one of the three kinds of linked library.
pub proof fn law_linked_crates_are_needed(
    units: Seq<UnitGraphUnit>,
    c: ClassifiedUnits,
    s: int,
    j: int,
    kind: Seq<char>,
)
    requires
        classifier::classifies(units, c),
        0 <= s < units.len(),
        units[s].mode@ == "run-custom-build"@ || units[s].mode@ == "build"@ && text::texts(
            units[s].kind@,
        ).contains(kind) && (kind == "proc-macro"@ || kind == "bin"@ || kind == "cdylib"@ || kind
            == "dylib"@ || kind == "staticlib"@),
        unit_graph::is_reached(units, s, j),
        0 <= j < units.len(),
        units[j].mode@ == "build"@,
    ensures
        c.needs_rlib@.contains(text::replaced(units[j].name@, '-', '_')),
        !c.defer_codegen@.contains(text::replaced(units[j].name@, '-', '_')),
{
    assert(classifier::is_seed(units[s]));
    assert(classifier::is_linked(units, j));
    let name = text::replaced(units[j].name@, '-', '_');
    assert(classifier::crate_name_of(units[j].name@) == name);
    assert(classifier::compiled_as(units, units.len() as int, true, name));
}

/// A crate is deferred if it is built and no unit that builds it is needed by one that
/// links.
pub proof fn law_other_crates_are_deferred(
    units: Seq<UnitGraphUnit>,
    c: ClassifiedUnits,
    j: int,
)
    requires
        classifier::classifies(units, c),
        0 <= j < units.len(),
        units[j].mode@ == "build"@,
        forall|s: int, i: int|
            0 <= s < units.len() && 0 <= i < units.len() && #[trigger] unit_graph::is_reached(
                units,
                s,
                i,
            ) && text::replaced(units[i].name@, '-', '_') == text::replaced(
                units[j].name@,
                '-',
                '_',
            ) ==> units[s].mode@ != "run-custom-build"@ && (units[s].mode@ == "build"@
                ==> forall|kind: Seq<char>| #[trigger]
                text::texts(units[s].kind@).contains(kind) ==> kind != "proc-macro"@ && kind
                    != "bin"@ && kind != "cdylib"@ && kind != "dylib"@ && kind != "staticlib"@),
    ensures
        c.defer_codegen@.contains(text::replaced(units[j].name@, '-', '_')),
        !c.needs_rlib@.contains(text::replaced(units[j].name@, '-', '_')),
{
    let n = units.len() as int;
    let name = text::replaced(units[j].name@, '-', '_');
    assert(classifier::crate_name_of(units[j].name@) == name);
    if classifier::compiled_as(units, n, true, name) {
        let i = choose|i: int|
            0 <= i < n && (#[trigger] units[i]).mode@ == "build"@ && classifier::is_linked(
                units,
                i,
            ) == true && classifier::crate_name_of(units[i].name@) == name;
        let s = choose|s: int|
            0 <= s < units.len() && classifier::is_seed(units[s])
                && #[trigger] unit_graph::is_reached(units, s, i);
        assert(unit_graph::is_reached(units, s, i));
        assert(false);
    }
    if classifier::is_linked(units, j) {
        assert(classifier::compiled_as(units, n, true, name));
    }
    assert(classifier::compiled_as(units, n, false, name));
}

/// Only what is built is classified, under its name with underscores, and the units are
/// counted.
pub proof fn law_only_built_crates_are_classified(
    units: Seq<UnitGraphUnit>,
    c: ClassifiedUnits,
    name: Seq<char>,
)
    requires
        classifier::classifies(units, c),
        c.needs_rlib@.contains(name) || c.defer_codegen@.contains(name),
    ensures
        c.total_units == units.len(),
        exists|i: int|
            0 <= i < units.len() && (#[trigger] units[i]).mode@ == "build"@ && text::replaced(
                units[i].name@,
                '-',
                '_',
            ) == name,
{
    classifier::law_every_compiled_crate_is_classified(units, c, name);
    let i = choose|i: int|
        0 <= i < units.len() && (#[trigger] units[i]).mode@ == "build"@
            && classifier::crate_name_of(units[i].name@) == name;
    assert(text::replaced(units[i].name@, '-', '_') == name);
}

} // verus!
