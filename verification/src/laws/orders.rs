//! Orders, layers and waves.

use vstd::prelude::*;
use crate::codegen::{self, Codegen};
use crate::{builder, layers, order, waves};

verus! {

// ---------------------------------------------------------------------------
// Order
// ---------------------------------------------------------------------------

/// Texts are ordered as in a dictionary: the first characters decide, then what follows
/// them, and a text comes before every longer one that begins with it.
pub proof fn law_dictionary_order(x: char, a: Seq<char>, y: char, b: Seq<char>)
    ensures
        !order::text_lt(a, Seq::empty()),
        order::text_lt(Seq::empty(), seq![x] + a),
        x != y ==> (order::text_lt(seq![x] + a, seq![y] + b) <==> x < y),
        order::text_lt(seq![x] + a, seq![x] + b) <==> order::text_lt(a, b),
{
    let e = Seq::<char>::empty();
    let p = seq![x] + a;
    let q = seq![y] + b;
    let r = seq![x] + b;
    assert(order::text_lt_at(e, p, 0));
    if order::text_lt(a, e) {
        let k = choose|k: int| order::text_lt_at(a, e, k);
        assert(k < e.len());
    }
    assert(p[0] == x && q[0] == y && r[0] == x);
    if x != y {
        if x < y {
            assert(order::text_lt_at(p, q, 0));
        }
        if order::text_lt(p, q) {
            let k = choose|k: int| order::text_lt_at(p, q, k);
            if k > 0 {
                assert(p[0] == q[0]);
            }
        }
    }
    if order::text_lt(p, r) {
        let k = choose|k: int| order::text_lt_at(p, r, k);
        assert(k > 0);
        assert forall|i: int| 0 <= i < k - 1 implies a[i] == b[i] by {
            assert(p[i + 1] == r[i + 1]);
        }
        if k < p.len() {
            assert(p[k] == a[k - 1] && r[k] == b[k - 1]);
        }
        assert(order::text_lt_at(a, b, k - 1));
    }
    if order::text_lt(a, b) {
        let k = choose|k: int| order::text_lt_at(a, b, k);
        assert forall|i: int| 0 <= i < k + 1 implies p[i] == r[i] by {
            if i > 0 {
                assert(p[i] == a[i - 1] && r[i] == b[i - 1]);
            }
        }
        if k < a.len() {
            assert(p[k + 1] == a[k] && r[k + 1] == b[k]);
        }
        assert(order::text_lt_at(p, r, k + 1));
    }
}

/// Rows are ordered by their first entries, and by what follows where those agree.
pub proof fn law_row_order(
    x: Seq<char>,
    a: Seq<Seq<char>>,
    y: Seq<char>,
    b: Seq<Seq<char>>,
)
    ensures
        !order::row_lt(a, Seq::empty()),
        order::row_lt(Seq::empty(), seq![x] + a),
        order::row_lt(seq![x] + a, seq![y] + b) <==> order::text_lt(x, y) || x == y
            && order::row_lt(a, b),
{
    let e = Seq::<Seq<char>>::empty();
    let p = seq![x] + a;
    let q = seq![y] + b;
    assert(order::row_lt_at(e, p, 0));
    if order::row_lt(a, e) {
        let k = choose|k: int| order::row_lt_at(a, e, k);
        assert(k < e.len());
    }
    assert(p[0] == x && q[0] == y);
    if order::text_lt(x, y) {
        assert(order::row_lt_at(p, q, 0));
    }
    if order::row_lt(p, q) {
        let k = choose|k: int| order::row_lt_at(p, q, k);
        if k > 0 {
            assert(p[0] == q[0]);
            assert forall|i: int| 0 <= i < k - 1 implies a[i] == b[i] by {
                assert(p[i + 1] == q[i + 1]);
            }
            if k < p.len() {
                assert(p[k] == a[k - 1] && q[k] == b[k - 1]);
            }
            assert(order::row_lt_at(a, b, k - 1));
        }
    }
    if x == y && order::row_lt(a, b) {
        let k = choose|k: int| order::row_lt_at(a, b, k);
        assert forall|i: int| 0 <= i < k + 1 implies p[i] == q[i] by {
            if i > 0 {
                assert(p[i] == a[i - 1] && q[i] == b[i - 1]);
            }
        }
        if k < a.len() {
            assert(p[k + 1] == a[k] && q[k + 1] == b[k]);
        }
        assert(order::row_lt_at(p, q, k + 1));
    }
}

/// In an ascending list every text comes before all that stand behind it, so none stands
/// twice; in a rising list every number is less.
pub proof fn law_ascending_lists(ts: Seq<Seq<char>>, ns: Seq<usize>, i: int, j: int)
    requires
        0 <= i < j,
    ensures
        order::ascending(ts) && j < ts.len() ==> order::text_lt(ts[i], ts[j]) && ts[i] != ts[j],
        layers::rising(ns) && j < ns.len() ==> ns[i] < ns[j],
{
    if order::ascending(ts) && j < ts.len() {
        assert(order::text_lt(ts[i], ts[j]));
        order::lemma_text_lt_asymmetric(ts[i], ts[j]);
    }
}

/// Sorting keeps every position, puts none with a greater key before one with a lesser,
/// and leaves those with the same key in their order.
pub proof fn law_sorting_is_stable(
    keys: Seq<Seq<Seq<char>>>,
    xs: Seq<usize>,
    ys: Seq<usize>,
    i: int,
    j: int,
)
    requires
        order::stably_sorted(keys, xs, ys),
        xs.no_duplicates(),
        0 <= i < j < ys.len(),
    ensures
        ys.len() == xs.len(),
        ys.to_set() == xs.to_set(),
        !order::row_lt(keys[ys[j] as int], keys[ys[i] as int]),
        keys[ys[i] as int] == keys[ys[j] as int] ==> exists|a: int, b: int|
            0 <= a < b < xs.len() && #[trigger] xs[a] == ys[i] && #[trigger] xs[b] == ys[j],
{
    assert(ys.to_set() =~= xs.to_set());
    let u = ys[i];
    let v = ys[j];
    assert(order::listed_before(keys, xs, u, v));
    if order::row_lt(keys[v as int], keys[u as int]) {
        order::lemma_row_lt_irreflexive(keys[u as int]);
        if order::row_lt(keys[u as int], keys[v as int]) {
            order::lemma_row_lt_transitive(keys[u as int], keys[v as int], keys[u as int]);
        }
    }
    if keys[u as int] == keys[v as int] {
        order::lemma_row_lt_irreflexive(keys[u as int]);
        assert(ys.contains(u) && ys.contains(v));
        assert(xs.contains(u) && xs.contains(v));
        let a = xs.index_of(u);
        let b = xs.index_of(v);
        assert(xs[a] == u && xs[b] == v);
    }
}

// ---------------------------------------------------------------------------
// Layers
// ---------------------------------------------------------------------------

/// A graph has no cycle if and only if its nodes can be numbered so that every node has a
/// greater number than what it waits for.
pub proof fn law_cycles_forbid_numbering(deps: Seq<Set<int>>, number: Seq<nat>)
    requires
        layers::closed(deps),
    ensures
        number.len() == deps.len() && (forall|v: int, d: int|
            0 <= v < deps.len() && #[trigger] deps[v].contains(d) ==> number[d] < number[v])
            ==> !layers::has_cycle(deps),
        !layers::has_cycle(deps) ==> exists|n: Seq<nat>|
            #![auto]
            n.len() == deps.len() && forall|v: int, d: int|
                0 <= v < deps.len() && #[trigger] deps[v].contains(d) ==> n[d] < n[v],
{
    if number.len() == deps.len() && (forall|v: int, d: int|
        0 <= v < deps.len() && #[trigger] deps[v].contains(d) ==> number[d] < number[v])
        && layers::has_cycle(deps) {
        let walk = choose|walk: Seq<int>| #[trigger]
            layers::is_walk(deps, walk) && walk.len() > 1 && walk.first() == walk.last();
        lemma_numbers_fall(deps, number, walk, walk.len() - 1);
    }
    if !layers::has_cycle(deps) {
        let rounds = layers::lemma_rounds_suffice(deps);
        layers::lemma_all_settle_iff_acyclic(deps, rounds);
        let n = Seq::new(
            deps.len(),
            |v: int| choose|p: nat| layers::in_phase(deps, v, p),
        );
        assert forall|v: int, d: int| 0 <= v < deps.len() && #[trigger] deps[v].contains(
            d,
        ) implies n[d] < n[v] by {
            assert(0 <= d < deps.len());
            assert(layers::settled(deps, v, rounds));
            assert(layers::settled(deps, d, rounds));
            let p = layers::lemma_settled_has_phase(deps, v, rounds);
            let q = layers::lemma_settled_has_phase(deps, d, rounds);
            assert(layers::in_phase(deps, v, n[v]));
            assert(layers::in_phase(deps, d, n[d]));
            assert(layers::settled(deps, d, n[v]));
            if n[d] >= n[v] {
                layers::lemma_settled_monotone(deps, d, n[v], n[d]);
            }
        }
        assert(n.len() == deps.len());
    }
}

proof fn lemma_numbers_fall(deps: Seq<Set<int>>, number: Seq<nat>, walk: Seq<int>, i: int)
    requires
        layers::is_walk(deps, walk),
        forall|v: int, d: int|
            0 <= v < deps.len() && #[trigger] deps[v].contains(d) ==> number[d] < number[v],
        0 < i < walk.len(),
    ensures
        number[walk[i]] < number[walk[0]],
    decreases i,
{
    assert(0 <= walk[i - 1] < deps.len());
    assert(deps[walk[i - 1]].contains(walk[i - 1 + 1]));
    if i > 1 {
        lemma_numbers_fall(deps, number, walk, i - 1);
    }
}

/// A node can be reached by the rounds if and only if all that it waits for can, and a
/// phase lists it if and only if it can.
pub proof fn law_reachable_nodes(deps: Seq<Set<int>>, phases: Seq<Seq<usize>>, v: usize)
    requires
        layers::closed(deps),
        layers::is_layering(deps, phases),
        v < deps.len() <= usize::MAX,
    ensures
        layers::reachable(deps).contains(v as int) <==> forall|d: int| #[trigger]
            deps[v as int].contains(d) ==> layers::reachable(deps).contains(d),
        layers::reachable(deps).contains(v as int) <==> layers::is_listed(phases, v),
        forall|d: int| #[trigger]
            layers::reachable(deps).contains(d) ==> 0 <= d < deps.len(),
{
    let all = layers::reachable(deps);
    let rounds = layers::lemma_rounds_suffice(deps);
    if all.contains(v as int) {
        let k = choose|k: nat| layers::settled(deps, v as int, k);
        assert forall|d: int| #[trigger] deps[v as int].contains(d) implies all.contains(d) by {
            assert(layers::settled(deps, d, (k - 1) as nat));
        }
        assert(layers::settled(deps, v as int, phases.len()));
        let p = layers::lemma_settled_has_phase(deps, v as int, phases.len());
        assert(phases[p as int].contains(v));
    }
    if forall|d: int| #[trigger] deps[v as int].contains(d) ==> all.contains(d) {
        assert forall|d: int| #[trigger] deps[v as int].contains(d) implies layers::settled(
            deps,
            d,
            rounds,
        ) by {
            assert(all.contains(d));
            let k = choose|k: nat| layers::settled(deps, d, k);
            assert(layers::settled(deps, d, k));
        }
        assert(layers::settled(deps, v as int, rounds + 1));
    }
    if layers::is_listed(phases, v) {
        let p = choose|p: int| 0 <= p < phases.len() && #[trigger] phases[p].contains(v);
        assert(layers::settled(deps, v as int, p as nat + 1));
    }
}

/// Nodes are counted phase by phase.
pub proof fn law_phases_are_counted(a: Seq<Seq<usize>>, phase: Seq<usize>, b: Seq<Seq<usize>>)
    ensures
        layers::total_len(Seq::empty()) == 0,
        layers::total_len(seq![phase]) == phase.len(),
        layers::total_len(a + b) == layers::total_len(a) + layers::total_len(b),
    decreases b.len(),
{
    let none = Seq::<Seq<usize>>::empty();
    assert(layers::total_len(none) == 0);
    assert(seq![phase].drop_last() =~= none);
    if b.len() == 0 {
        assert(a + b =~= a);
    } else {
        law_phases_are_counted(a, phase, b.drop_last());
        assert((a + b).drop_last() =~= a + b.drop_last());
        assert((a + b).last() == b.last());
    }
}

/// A node waits for exactly the nodes of the graph that its list names.
pub proof fn law_lists_as_sets(lists: Seq<Seq<usize>>, v: int, d: usize)
    requires
        0 <= v < lists.len() <= usize::MAX,
    ensures
        layers::sets_of(lists).len() == lists.len(),
        layers::sets_of(lists)[v].contains(d as int) <==> d < lists.len() && lists[v].contains(d),
        d < lists.len() ==> (layers::deps_of(lists)[d as int].contains(v) <==> lists[v].contains(
            d,
        )),
{
}

/// Units that agree in what orders them stand, behind the first phase, by what they wait
/// for: no unit that one waits for stands behind all that a later one waits for.
pub proof fn law_ties_follow_the_phase_before(
    lists: Seq<Seq<usize>>,
    keys: Seq<Seq<Seq<char>>>,
    phases: Seq<Seq<usize>>,
    p: int,
    x: int,
    y: int,
    r: int,
)
    requires
        layers::ordered(lists, keys, phases),
        0 < p < phases.len(),
        0 <= x < y < phases[p].len(),
        keys[phases[p][x] as int] == keys[phases[p][y] as int],
        0 <= r < phases[p - 1].len(),
        lists[phases[p][x] as int].contains(phases[p - 1][r]),
    ensures
        exists|s: int|
            r <= s < phases[p - 1].len() && lists[phases[p][y] as int].contains(
                #[trigger] phases[p - 1][s],
            ),
{
    let u = phases[p][x];
    let v = phases[p][y];
    let prev = phases[p - 1];
    assert(layers::precedes(lists, keys, phases, p, u, v));
    order::lemma_row_lt_irreflexive(keys[u as int]);
    assert(layers::held_longer(lists, prev, u, v));
    let s = choose|s: int|
        0 <= s < prev.len() && lists[v as int].contains(#[trigger] prev[s]) && forall|r2: int|
            0 <= r2 < prev.len() && lists[u as int].contains(#[trigger] prev[r2]) ==> r2 < s || (r2
                == s && u < v);
    assert(lists[u as int].contains(prev[r]));
}

// ---------------------------------------------------------------------------
// Waves
// ---------------------------------------------------------------------------

/// Every wave but the last is full, and the waves end with the last item; as many run at
/// once as there are jobs, and at least one.
pub proof fn law_waves_are_full(from: nat, n: nat, width: nat, i: int)
    requires
        width > 0,
        from < n,
        0 <= i < waves::waves_from(from, n, width).len(),
    ensures
        ({
            let all = waves::waves_from(from, n, width);
            &&& i < all.len() - 1 ==> all[i].1 - all[i].0 == width
            &&& i == all.len() - 1 ==> all[i].1 == n
        }),
    decreases n - from,
{
    let all = waves::waves_from(from, n, width);
    if n - from > width {
        let rest = waves::waves_from(from + width, n, width);
        if i > 0 {
            law_waves_are_full(from + width, n, width, i - 1);
            assert(all[i] == rest[i - 1]);
        } else {
            assert(rest.len() > 0);
        }
    } else {
        assert(waves::waves_from(n, n, width).len() == 0);
    }
}

/// There is no wave without an item, and one at least with one.
pub proof fn law_there_are_waves_for_items(from: nat, n: nat, jobs: nat)
    ensures
        waves::waves_from(from, n, waves::width_of(jobs)).len() == 0 <==> from >= n,
        jobs > 0 ==> waves::width_of(jobs) == jobs,
        waves::width_of(0) == 1,
{
}

/// The greatest width of the phases is one number, and no phase is wider.
pub proof fn law_widest_phase(phases: Seq<Seq<usize>>, w: nat, other: nat, p: int)
    requires
        builder::is_max_width(phases, w),
        0 <= p < phases.len(),
    ensures
        phases[p].len() <= w,
        builder::is_max_width(phases, other) ==> other == w,
        exists|q: int| 0 <= q < phases.len() && (#[trigger] phases[q]).len() == w,
{
}

// ---------------------------------------------------------------------------
// Replaying
// ---------------------------------------------------------------------------

/// Where both are replayed, a unit waits for what it depends on; what is not replayed
/// neither waits nor is waited for.
pub proof fn law_what_is_not_replayed_holds_nothing_back(
    deps: Seq<Set<int>>,
    runnable: Seq<bool>,
    v: int,
    d: int,
)
    requires
        layers::closed(deps),
        runnable.len() == deps.len(),
        0 <= v < deps.len(),
    ensures
        codegen::run_deps(deps, runnable).len() == deps.len(),
        codegen::run_deps(deps, runnable)[v].contains(d) <==> deps[v].contains(d) && runnable[v]
            && runnable[d],
        codegen::runnable_set(runnable).contains(v) <==> runnable[v],
        codegen::runnable_set(runnable).contains(d) ==> 0 <= d < runnable.len(),
{
}

/// A unit can start if and only if it is replayed, has not started, all that it waits for
/// has finished, and nothing has failed.
pub proof fn law_when_a_unit_can_start(c: Codegen, v: int)
    requires
        0 <= v < c.runnable().len(),
    ensures
        c.can_start(v) <==> c.failure() is None && c.runnable()[v] && !c.started().contains(v) && (
        forall|d: int| #[trigger] c.waits_for()[v].contains(d) ==> c.finished().contains(d)),
{
    if forall|d: int| #[trigger] c.waits_for()[v].contains(d) ==> c.finished().contains(d) {
        assert(c.waits_for()[v].subset_of(c.finished()));
    }
}

/// What finishes releases exactly the units that waited for it and, besides it, for
/// nothing that is unfinished.
pub proof fn law_what_is_released(c: Codegen, v: int, i: int)
    requires
        0 <= v < c.runnable().len(),
    ensures
        c.is_released_by(v, i) <==> c.waits_for()[v].contains(i) && forall|d: int| #[trigger]
            c.waits_for()[v].contains(d) && d != i ==> c.finished().contains(d),
        c.is_running(i) <==> c.started().contains(i) && !c.finished().contains(i),
        c.is_idle() ==> !c.is_running(i) && c.ready().len() == 0,
{
    if c.waits_for()[v].contains(i) && forall|d: int| #[trigger]
        c.waits_for()[v].contains(d) && d != i ==> c.finished().contains(d) {
        assert(c.waits_for()[v].subset_of(c.finished().insert(i)));
    }
}

} // verus!
