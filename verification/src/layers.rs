//! Wavefront layering of a dependency graph.
//!
//! A graph on `n` nodes is a sequence of `n` sets: entry `v` holds the nodes
//! that `v` waits for. Round after round, the nodes whose dependencies have all
//! been taken are taken themselves; what one round takes is one phase.

use vstd::prelude::*;
use crate::order;

verus! {

// ---------------------------------------------------------------------------
// Model
// ---------------------------------------------------------------------------

/// Every dependency is a node of the graph.
pub open spec fn closed(deps: Seq<Set<int>>) -> bool {
    forall|v: int, d: int|
        0 <= v < deps.len() && #[trigger] deps[v].contains(d) ==> 0 <= d < deps.len()
}

/// `v` is taken within the first `k` rounds.
pub open spec fn settled(deps: Seq<Set<int>>, v: int, k: nat) -> bool
    decreases k,
{
    k > 0 && forall|d: int| #[trigger]
        deps[v].contains(d) ==> settled(deps, d, (k - 1) as nat)
}

/// `v` is taken in round `p`, counted from zero.
pub open spec fn in_phase(deps: Seq<Set<int>>, v: int, p: nat) -> bool {
    settled(deps, v, p + 1) && !settled(deps, v, p)
}

/// The nodes that are taken in some round.
pub open spec fn reachable(deps: Seq<Set<int>>) -> Set<int> {
    vstd::set_lib::set_int_range(0, deps.len() as int).filter(|v: int| exists|k: nat| settled(deps, v, k))
}

/// Each entry of `walk` waits for the next one.
pub open spec fn is_walk(deps: Seq<Set<int>>, walk: Seq<int>) -> bool {
    &&& walk.len() > 0
    &&& forall|i: int| 0 <= i < walk.len() ==> 0 <= #[trigger] walk[i] < deps.len()
    &&& forall|i: int|
        0 <= i < walk.len() - 1 ==> (#[trigger] deps[walk[i]]).contains(walk[i + 1])
}

/// Some node waits for itself, directly or through others.
pub open spec fn has_cycle(deps: Seq<Set<int>>) -> bool {
    exists|walk: Seq<int>| #[trigger]
        is_walk(deps, walk) && walk.len() > 1 && walk.first() == walk.last()
}

/// The lists that a vector of vectors holds.
pub open spec fn lists(vs: Seq<Vec<usize>>) -> Seq<Seq<usize>> {
    vs.map_values(|v: Vec<usize>| v@)
}

/// `phases` are the rounds of `deps`, each listing what it takes once, with none
/// empty and none missing.
pub open spec fn is_layering(deps: Seq<Set<int>>, phases: Seq<Seq<usize>>) -> bool {
    &&& forall|p: int|
        0 <= p < phases.len() ==> (#[trigger] phases[p]).len() > 0 && phases[p].no_duplicates()
    &&& forall|p: int, v: usize|
        0 <= p < phases.len() ==> (#[trigger] phases[p].contains(v) <==> v < deps.len() && in_phase(
            deps,
            v as int,
            p as nat,
        ))
    &&& forall|v: int, k: nat|
        0 <= v < deps.len() && #[trigger] settled(deps, v, k) ==> settled(deps, v, phases.len())
}

// ---------------------------------------------------------------------------
// Rounds
// ---------------------------------------------------------------------------

/// What is taken stays taken.
pub proof fn lemma_settled_monotone(deps: Seq<Set<int>>, v: int, j: nat, k: nat)
    requires
        j <= k,
        settled(deps, v, j),
    ensures
        settled(deps, v, k),
    decreases j,
{
    assert forall|d: int| #[trigger] deps[v].contains(d) implies settled(
        deps,
        d,
        (k - 1) as nat,
    ) by {
        lemma_settled_monotone(deps, d, (j - 1) as nat, (k - 1) as nat);
    }
}

/// A node that is taken is taken in exactly one round.
pub proof fn lemma_settled_has_phase(deps: Seq<Set<int>>, v: int, k: nat) -> (p: nat)
    requires
        settled(deps, v, k),
    ensures
        p < k,
        in_phase(deps, v, p),
    decreases k,
{
    if settled(deps, v, (k - 1) as nat) {
        lemma_settled_has_phase(deps, v, (k - 1) as nat)
    } else {
        (k - 1) as nat
    }
}

/// Along a walk from a node taken within `k` rounds, entry `i` is taken within
/// `k - i` rounds.
pub proof fn lemma_walk_settles(deps: Seq<Set<int>>, walk: Seq<int>, k: nat, i: int)
    requires
        is_walk(deps, walk),
        settled(deps, walk[0], k),
        0 <= i < walk.len(),
    ensures
        i < k,
        settled(deps, walk[i], (k - i) as nat),
    decreases i,
{
    if i > 0 {
        lemma_walk_settles(deps, walk, k, i - 1);
        assert(deps[walk[i - 1]].contains(walk[i - 1 + 1]));
        assert(settled(deps, walk[i], (k - i) as nat));
    }
}

/// No entry of a closed walk is ever taken.
pub proof fn lemma_cycle_never_settles(deps: Seq<Set<int>>, walk: Seq<int>, k: nat)
    requires
        is_walk(deps, walk),
        walk.len() > 1,
        walk.first() == walk.last(),
    ensures
        !settled(deps, walk.first(), k),
    decreases k,
{
    if settled(deps, walk.first(), k) {
        lemma_walk_settles(deps, walk, k, walk.len() - 1);
        lemma_cycle_never_settles(deps, walk, (k - (walk.len() - 1)) as nat);
    }
}

/// From a node that is not taken within `rounds`, where `rounds` take all that is
/// ever taken, a walk of any length leads on.
proof fn lemma_stuck_walk(deps: Seq<Set<int>>, rounds: nat, v: int, len: nat) -> (walk: Seq<int>)
    requires
        closed(deps),
        forall|u: int, k: nat|
            0 <= u < deps.len() && #[trigger] settled(deps, u, k) ==> settled(deps, u, rounds),
        0 <= v < deps.len(),
        !settled(deps, v, rounds),
        len > 0,
    ensures
        is_walk(deps, walk),
        walk.len() == len,
        walk.first() == v,
    decreases len,
{
    if len == 1 {
        seq![v]
    } else {
        if forall|d: int| #[trigger] deps[v].contains(d) ==> settled(deps, d, rounds) {
            assert(settled(deps, v, rounds + 1));
            assert(false);
        }
        let d = choose|d: int| #[trigger] deps[v].contains(d) && !settled(deps, d, rounds);
        let rest = lemma_stuck_walk(deps, rounds, d, (len - 1) as nat);
        let walk = seq![v] + rest;
        assert forall|i: int| 0 <= i < walk.len() - 1 implies (#[trigger] deps[walk[i]]).contains(
            walk[i + 1],
        ) by {
            if i > 0 {
                assert(deps[rest[i - 1]].contains(rest[i]));
            }
        }
        walk
    }
}

/// Among more than `n` numbers below `n` two are the same.
proof fn lemma_pigeonhole(s: Seq<int>, n: nat)
    requires
        s.len() > n,
        forall|i: int| 0 <= i < s.len() ==> 0 <= #[trigger] s[i] < n,
    ensures
        !s.no_duplicates(),
{
    if s.no_duplicates() {
        s.unique_seq_to_set();
        vstd::set_lib::lemma_int_range(0, n as int);
        assert(s.to_set().subset_of(vstd::set_lib::set_int_range(0, n as int)));
        vstd::set_lib::lemma_len_subset(s.to_set(), vstd::set_lib::set_int_range(0, n as int));
    }
}

/// Where `rounds` take all that is ever taken, they take every node exactly when
/// the graph has no cycle.
pub proof fn lemma_all_settle_iff_acyclic(deps: Seq<Set<int>>, rounds: nat)
    requires
        closed(deps),
        forall|u: int, k: nat|
            0 <= u < deps.len() && #[trigger] settled(deps, u, k) ==> settled(deps, u, rounds),
    ensures
        (forall|v: int| 0 <= v < deps.len() ==> #[trigger] settled(deps, v, rounds)) <==> !has_cycle(
            deps,
        ),
{
    if has_cycle(deps) {
        let walk = choose|walk: Seq<int>| #[trigger]
            is_walk(deps, walk) && walk.len() > 1 && walk.first() == walk.last();
        lemma_cycle_never_settles(deps, walk, rounds);
        assert(0 <= walk[0] < deps.len());
        assert(!settled(deps, walk[0], rounds));
    } else if exists|v: int| 0 <= v < deps.len() && !#[trigger] settled(deps, v, rounds) {
        let v = choose|v: int| 0 <= v < deps.len() && !#[trigger] settled(deps, v, rounds);
        let walk = lemma_stuck_walk(deps, rounds, v, (deps.len() + 1) as nat);
        lemma_pigeonhole(walk, deps.len());
        let (i, j) = choose|i: int, j: int|
            0 <= i < walk.len() && 0 <= j < walk.len() && i != j && #[trigger] walk[i]
                == #[trigger] walk[j];
        let a = if i < j { i } else { j };
        let b = if i < j { j } else { i };
        let round = walk.subrange(a, b + 1);
        assert forall|q: int| 0 <= q < round.len() - 1 implies (#[trigger] deps[round[q]]).contains(
            round[q + 1],
        ) by {
            assert(deps[walk[a + q]].contains(walk[a + q + 1]));
        }
        assert(is_walk(deps, round));
        assert(round.first() == round.last());
        assert(has_cycle(deps));
    }
}

/// Some number of rounds takes all of the first `m` nodes that are ever taken.
proof fn lemma_rounds_suffice_upto(deps: Seq<Set<int>>, m: nat) -> (rounds: nat)
    requires
        m <= deps.len(),
    ensures
        forall|u: int, k: nat|
            0 <= u < m && #[trigger] settled(deps, u, k) ==> settled(deps, u, rounds),
    decreases m,
{
    if m == 0 {
        0
    } else {
        let fewer = lemma_rounds_suffice_upto(deps, (m - 1) as nat);
        let last = m - 1;
        let own = choose|k: nat| #[trigger] settled(deps, last, k);
        let rounds = if own <= fewer {
            fewer
        } else {
            own
        };
        assert forall|u: int, k: nat|
            0 <= u < m && #[trigger] settled(deps, u, k) implies settled(deps, u, rounds) by {
            if u < last {
                assert(settled(deps, u, fewer));
                lemma_settled_monotone(deps, u, fewer, rounds);
            } else {
                assert(settled(deps, last, own));
                lemma_settled_monotone(deps, last, own, rounds);
            }
        }
        rounds
    }
}

/// Some number of rounds takes all that is ever taken.
pub proof fn lemma_rounds_suffice(deps: Seq<Set<int>>) -> (rounds: nat)
    ensures
        forall|u: int, k: nat|
            0 <= u < deps.len() && #[trigger] settled(deps, u, k) ==> settled(deps, u, rounds),
{
    lemma_rounds_suffice_upto(deps, deps.len())
}

// ---------------------------------------------------------------------------
// Laws of a layering
// ---------------------------------------------------------------------------

/// Every dependency of a node stands in a strictly earlier phase than the node.
pub proof fn law_dependencies_come_earlier(
    deps: Seq<Set<int>>,
    phases: Seq<Seq<usize>>,
    p: int,
    v: usize,
    d: int,
)
    requires
        is_layering(deps, phases),
        closed(deps),
        deps.len() <= usize::MAX,
        0 <= p < phases.len(),
        phases[p].contains(v),
        deps[v as int].contains(d),
    ensures
        exists|q: int| 0 <= q < p && #[trigger] phases[q].contains(d as usize),
{
    assert(settled(deps, v as int, (p as nat) + 1));
    assert(settled(deps, d, p as nat));
    let q = lemma_settled_has_phase(deps, d, p as nat);
    assert(phases[q as int].contains(d as usize));
}

/// No node stands in two phases.
pub proof fn law_listed_in_one_phase(
    deps: Seq<Set<int>>,
    phases: Seq<Seq<usize>>,
    p: int,
    q: int,
    v: usize,
)
    requires
        is_layering(deps, phases),
        0 <= p < phases.len(),
        0 <= q < phases.len(),
        phases[p].contains(v),
        phases[q].contains(v),
    ensures
        p == q,
{
    if p < q {
        lemma_settled_monotone(deps, v as int, (p + 1) as nat, q as nat);
    } else if q < p {
        lemma_settled_monotone(deps, v as int, (q + 1) as nat, p as nat);
    }
}

/// The first phase holds exactly the nodes without dependencies.
pub proof fn law_first_phase_has_no_dependencies(
    deps: Seq<Set<int>>,
    phases: Seq<Seq<usize>>,
    v: usize,
)
    requires
        is_layering(deps, phases),
        phases.len() > 0,
        v < deps.len(),
    ensures
        phases[0].contains(v) <==> deps[v as int] =~= Set::<int>::empty(),
{
    if phases[0].contains(v) {
        assert(settled(deps, v as int, 1));
        assert forall|d: int| !deps[v as int].contains(d) by {
            if deps[v as int].contains(d) {
                assert(settled(deps, d, 0));
            }
        }
    }
    if deps[v as int] =~= Set::<int>::empty() {
        assert(settled(deps, v as int, 1));
        assert(in_phase(deps, v as int, 0));
        assert(phases[0].contains(v));
    }
}

/// A node of a later phase has a dependency in the phase just before: it could
/// not have been listed earlier.
pub proof fn law_no_node_waits_longer_than_needed(
    deps: Seq<Set<int>>,
    phases: Seq<Seq<usize>>,
    p: int,
    v: usize,
)
    requires
        is_layering(deps, phases),
        closed(deps),
        deps.len() <= usize::MAX,
        0 < p < phases.len(),
        phases[p].contains(v),
    ensures
        exists|d: int| #[trigger]
            deps[v as int].contains(d) && phases[p - 1].contains(d as usize),
{
    assert(!settled(deps, v as int, p as nat));
    let d = choose|d: int| #[trigger]
        deps[v as int].contains(d) && !settled(deps, d, (p - 1) as nat);
    assert(settled(deps, v as int, (p + 1) as nat));
    assert(settled(deps, d, p as nat));
    assert(in_phase(deps, d, (p - 1) as nat));
    assert(phases[p - 1].contains(d as usize));
}

/// In any numbering of steps that puts every node after its dependencies, a node
/// of phase `p` comes no earlier than step `p`: no schedule has fewer steps than
/// there are phases.
pub proof fn law_no_schedule_is_shorter(
    deps: Seq<Set<int>>,
    phases: Seq<Seq<usize>>,
    step: Seq<nat>,
    p: int,
    v: usize,
)
    requires
        is_layering(deps, phases),
        closed(deps),
        deps.len() <= usize::MAX,
        step.len() == deps.len(),
        forall|u: int, d: int|
            0 <= u < deps.len() && #[trigger] deps[u].contains(d) ==> step[d] < step[u],
        0 <= p < phases.len(),
        phases[p].contains(v),
    ensures
        step[v as int] >= p,
    decreases p,
{
    if p > 0 {
        law_no_node_waits_longer_than_needed(deps, phases, p, v);
        let d = choose|d: int| #[trigger]
            deps[v as int].contains(d) && phases[p - 1].contains(d as usize);
        law_no_schedule_is_shorter(deps, phases, step, p - 1, d as usize);
    }
}

/// The number of phases is the length of the longest chain of dependencies: some
/// chain has one node per phase, and where nothing is left over none is longer.
pub proof fn law_phases_count_the_longest_chain(deps: Seq<Set<int>>, phases: Seq<Seq<usize>>)
    requires
        is_layering(deps, phases),
        closed(deps),
        deps.len() <= usize::MAX,
    ensures
        phases.len() > 0 ==> exists|chain: Seq<int>| #[trigger]
            is_walk(deps, chain) && chain.len() == phases.len(),
        !has_cycle(deps) ==> forall|chain: Seq<int>| #[trigger]
            is_walk(deps, chain) ==> chain.len() <= phases.len(),
{
    if phases.len() > 0 {
        let p = phases.len() - 1;
        assert(phases[p].len() > 0);
        let v = phases[p][0];
        assert(phases[p].contains(v));
        let chain = lemma_chain_to_first_phase(deps, phases, p, v);
        assert(is_walk(deps, chain) && chain.len() == phases.len());
    }
    if !has_cycle(deps) {
        lemma_all_settle_iff_acyclic(deps, phases.len());
        assert forall|chain: Seq<int>| #[trigger] is_walk(deps, chain) implies chain.len()
            <= phases.len() by {
            assert(0 <= chain[0] < deps.len());
            assert(settled(deps, chain[0], phases.len()));
            lemma_walk_settles(deps, chain, phases.len(), chain.len() - 1);
        }
    }
}

/// From a node of phase `p` a chain of `p + 1` nodes leads down to the first phase.
proof fn lemma_chain_to_first_phase(
    deps: Seq<Set<int>>,
    phases: Seq<Seq<usize>>,
    p: int,
    v: usize,
) -> (chain: Seq<int>)
    requires
        is_layering(deps, phases),
        closed(deps),
        deps.len() <= usize::MAX,
        0 <= p < phases.len(),
        phases[p].contains(v),
    ensures
        is_walk(deps, chain),
        chain.len() == p + 1,
        chain.first() == v,
    decreases p,
{
    if p == 0 {
        seq![v as int]
    } else {
        law_no_node_waits_longer_than_needed(deps, phases, p, v);
        let d = choose|d: int| #[trigger]
            deps[v as int].contains(d) && phases[p - 1].contains(d as usize);
        let rest = lemma_chain_to_first_phase(deps, phases, p - 1, d as usize);
        let chain = seq![v as int] + rest;
        assert forall|i: int| 0 <= i < chain.len() - 1 implies (#[trigger] deps[chain[i]]).contains(
            chain[i + 1],
        ) by {
            if i > 0 {
                assert(deps[rest[i - 1]].contains(rest[i - 1 + 1]));
            }
        }
        chain
    }
}

/// Some phase lists `v`.
pub open spec fn is_listed(phases: Seq<Seq<usize>>, v: usize) -> bool {
    exists|p: int| 0 <= p < phases.len() && #[trigger] phases[p].contains(v)
}

/// Every node is listed exactly when no node waits for itself.
pub proof fn law_all_listed_iff_acyclic(deps: Seq<Set<int>>, phases: Seq<Seq<usize>>)
    requires
        is_layering(deps, phases),
        closed(deps),
        deps.len() <= usize::MAX,
    ensures
        (forall|v: usize| v < deps.len() ==> #[trigger] is_listed(phases, v)) <==> !has_cycle(deps),
{
    lemma_all_settle_iff_acyclic(deps, phases.len());
    if !has_cycle(deps) {
        assert forall|v: usize| v < deps.len() implies #[trigger] is_listed(phases, v) by {
            assert(settled(deps, v as int, phases.len()));
            let p = lemma_settled_has_phase(deps, v as int, phases.len());
            assert(phases[p as int].contains(v));
        }
    }
    if forall|v: usize| v < deps.len() ==> #[trigger] is_listed(phases, v) {
        assert forall|v: int| 0 <= v < deps.len() implies #[trigger] settled(
            deps,
            v,
            phases.len(),
        ) by {
            let u = v as usize;
            assert(is_listed(phases, u));
            let p = choose|p: int| 0 <= p < phases.len() && #[trigger] phases[p].contains(u);
            lemma_settled_monotone(deps, v, (p + 1) as nat, phases.len());
        }
    }
}

// ---------------------------------------------------------------------------
// Lists of dependents
// ---------------------------------------------------------------------------

/// Every list names nodes of the graph.
pub open spec fn lists_in_range(out: Seq<Seq<usize>>) -> bool {
    forall|i: int, t: int|
        0 <= i < out.len() && 0 <= t < out[i].len() ==> #[trigger] out[i][t] < out.len()
}

/// The graph in which `v` waits for `d` exactly when `d`'s list names `v`.
pub open spec fn deps_of(out: Seq<Seq<usize>>) -> Seq<Set<int>> {
    Seq::new(
        out.len(),
        |v: int| vstd::set_lib::set_int_range(0, out.len() as int).filter(|d: int| out[d].contains(v as usize)),
    )
}

/// How often `s` holds `v`.
pub open spec fn times(s: Seq<usize>, v: usize) -> nat
    decreases s.len(),
{
    if s.len() == 0 {
        0
    } else {
        times(s.drop_last(), v) + if s.last() == v {
            1nat
        } else {
            0nat
        }
    }
}

/// How often the first `m` lists, leaving out those of finished nodes, name `v`.
pub open spec fn waits(out: Seq<Seq<usize>>, finished: Set<int>, v: usize, m: nat) -> nat
    decreases m,
{
    if m == 0 {
        0
    } else {
        waits(out, finished, v, (m - 1) as nat) + if finished.contains(m - 1) {
            0nat
        } else {
            times(out[m - 1], v)
        }
    }
}

pub proof fn lemma_times_contains(s: Seq<usize>, v: usize)
    ensures
        times(s, v) > 0 <==> s.contains(v),
    decreases s.len(),
{
    if s.len() > 0 {
        lemma_times_contains(s.drop_last(), v);
        if s.contains(v) && s.last() != v {
            let i = choose|i: int| 0 <= i < s.len() && s[i] == v;
            assert(s.drop_last()[i] == v);
        }
    }
}

pub proof fn lemma_times_push(s: Seq<usize>, x: usize, v: usize)
    ensures
        times(s.push(x), v) == times(s, v) + if x == v {
            1nat
        } else {
            0nat
        },
{
    assert(s.push(x).drop_last() =~= s);
}

proof fn lemma_times_take(s: Seq<usize>, t: int, v: usize)
    requires
        0 <= t < s.len(),
    ensures
        times(s.take(t + 1), v) == times(s.take(t), v) + if s[t] == v {
            1nat
        } else {
            0nat
        },
{
    assert(s.take(t + 1).drop_last() =~= s.take(t));
}

proof fn lemma_times_take_bound(s: Seq<usize>, t: int, v: usize)
    requires
        0 <= t <= s.len(),
    ensures
        times(s.take(t), v) <= times(s, v),
    decreases s.len() - t,
{
    if t < s.len() {
        lemma_times_take_bound(s, t + 1, v);
        lemma_times_take(s, t, v);
    } else {
        assert(s.take(t) =~= s);
    }
}

/// Nothing waits exactly when no unfinished list names `v`.
proof fn lemma_waits_zero(out: Seq<Seq<usize>>, finished: Set<int>, v: usize, m: nat)
    requires
        m <= out.len(),
    ensures
        waits(out, finished, v, m) == 0 <==> forall|d: int|
            0 <= d < m && !finished.contains(d) ==> !(#[trigger] out[d]).contains(v),
    decreases m,
{
    if m > 0 {
        lemma_waits_zero(out, finished, v, (m - 1) as nat);
        lemma_times_contains(out[m - 1], v);
    }
}

/// Finishing one more node takes its list out of the count.
proof fn lemma_waits_finish(
    out: Seq<Seq<usize>>,
    finished: Set<int>,
    x: int,
    v: usize,
    m: nat,
)
    requires
        m <= out.len(),
        !finished.contains(x),
        x >= 0,
    ensures
        waits(out, finished, v, m) == waits(out, finished.insert(x), v, m) + if x < m {
            times(out[x], v)
        } else {
            0nat
        },
    decreases m,
{
    if m > 0 {
        lemma_waits_finish(out, finished, x, v, (m - 1) as nat);
    }
}

proof fn lemma_waits_same(
    out: Seq<Seq<usize>>,
    a: Set<int>,
    b: Set<int>,
    v: usize,
    m: nat,
)
    requires
        forall|d: int| 0 <= d < m ==> (a.contains(d) <==> b.contains(d)),
    ensures
        waits(out, a, v, m) == waits(out, b, v, m),
    decreases m,
{
    if m > 0 {
        lemma_waits_same(out, a, b, v, (m - 1) as nat);
    }
}

// ---------------------------------------------------------------------------
// The order within a phase
// ---------------------------------------------------------------------------

/// Entry `t` of the list of the node at place `r` of `prev` names `v`.
pub open spec fn names_at(
    out: Seq<Seq<usize>>,
    prev: Seq<usize>,
    r: int,
    t: int,
    v: usize,
) -> bool {
    &&& 0 <= r < prev.len()
    &&& 0 <= t < out[prev[r] as int].len()
    &&& out[prev[r] as int][t] == v
}

pub open spec fn earlier(a: (int, int), b: (int, int)) -> bool {
    a.0 < b.0 || (a.0 == b.0 && a.1 < b.1)
}

/// Walking the lists of `prev` from first to last, `v` is named once more after
/// `u` has been named for the last time.
pub open spec fn released_before(
    out: Seq<Seq<usize>>,
    prev: Seq<usize>,
    u: usize,
    v: usize,
) -> bool {
    exists|r: int, t: int| #[trigger]
        names_at(out, prev, r, t, v) && forall|r2: int, t2: int| #[trigger]
            names_at(out, prev, r2, t2, u) ==> earlier((r2, t2), (r, t))
}

/// `u` stands before `v` in phase `p`: by key, and where the keys are the same by
/// node number in the first phase and by release in the others.
pub open spec fn stands_before(
    out: Seq<Seq<usize>>,
    keys: Seq<Seq<Seq<char>>>,
    phases: Seq<Seq<usize>>,
    p: int,
    u: usize,
    v: usize,
) -> bool {
    ||| order::row_lt(keys[u as int], keys[v as int])
    ||| keys[u as int] == keys[v as int] && if p == 0 {
        u < v
    } else {
        released_before(out, phases[p - 1], u, v)
    }
}

/// Each phase is listed in its order.
pub open spec fn in_order(
    out: Seq<Seq<usize>>,
    keys: Seq<Seq<Seq<char>>>,
    phases: Seq<Seq<usize>>,
) -> bool {
    forall|p: int, i: int, j: int|
        0 <= p < phases.len() && 0 <= i < j < phases[p].len() ==> stands_before(
            out,
            keys,
            phases,
            p,
            #[trigger] phases[p][i],
            #[trigger] phases[p][j],
        )
}

// ---------------------------------------------------------------------------
// Peeling
// ---------------------------------------------------------------------------

/// The nodes taken within the first `k` rounds.
spec fn taken(deps: Seq<Set<int>>, k: nat) -> Set<int> {
    vstd::set_lib::set_int_range(0, deps.len() as int).filter(|v: int| settled(deps, v, k))
}

/// Nodes released so far, up to entry `t0` of the list at place `a`: `events`
/// tells for each the entry that released it.
spec fn released(
    out: Seq<Seq<usize>>,
    deps: Seq<Set<int>>,
    p: nat,
    ready: Seq<usize>,
    rem: Seq<usize>,
    next: Seq<usize>,
    events: Seq<(int, int)>,
    a: int,
    t0: int,
) -> bool {
    &&& next.no_duplicates()
    &&& events.len() == next.len()
    &&& forall|v: usize| #[trigger]
        next.contains(v) <==> v < rem.len() && rem[v as int] == 0 && !settled(
            deps,
            v as int,
            p + 1,
        )
    &&& forall|x: int|
        0 <= x < next.len() ==> names_at(out, ready, events[x].0, events[x].1, #[trigger] next[x])
            && earlier(events[x], (a, t0))
    &&& forall|x: int, y: int|
        0 <= x < y < next.len() ==> earlier(#[trigger] events[x], #[trigger] events[y])
    &&& forall|x: int, r: int, t: int|
        0 <= x < next.len() && #[trigger] names_at(out, ready, r, t, next[x]) && earlier(
            (r, t),
            (a, t0),
        ) ==> !earlier(events[x], (r, t))
}

/// A node is taken within `k + 1` rounds exactly when no list of a node left over
/// from the first `k` rounds names it.
proof fn lemma_settles_when_none_wait(out: Seq<Seq<usize>>, v: usize, k: nat)
    requires
        v < out.len(),
        out.len() <= usize::MAX,
    ensures
        settled(deps_of(out), v as int, k + 1) <==> waits(
            out,
            taken(deps_of(out), k),
            v,
            out.len(),
        ) == 0,
{
    let deps = deps_of(out);
    lemma_waits_zero(out, taken(deps, k), v, out.len());
    if settled(deps, v as int, k + 1) {
        assert forall|d: int| 0 <= d < out.len() && !taken(deps, k).contains(d) implies !(
        #[trigger] out[d]).contains(v) by {
            if out[d].contains(v) {
                assert(deps[v as int].contains(d));
                assert(settled(deps, d, k));
            }
        }
    }
    if waits(out, taken(deps, k), v, out.len()) == 0 {
        assert forall|d: int| #[trigger] deps[v as int].contains(d) implies settled(
            deps,
            d,
            k,
        ) by {
            assert(out[d].contains(v));
            assert(taken(deps, k).contains(d));
        }
    }
}

/// One round: takes the nodes of `ready` and finds those that nothing holds back
/// any longer, in the order in which they are released.
fn release(
    ready: &Vec<usize>,
    out: &Vec<Vec<usize>>,
    rem: &mut Vec<usize>,
    Ghost(p): Ghost<nat>,
) -> (next: Vec<usize>)
    requires
        lists_in_range(lists(out@)),
        ready@.no_duplicates(),
        forall|v: usize| #[trigger]
            ready@.contains(v) <==> v < out@.len() && in_phase(
                deps_of(lists(out@)),
                v as int,
                p,
            ),
        old(rem)@.len() == out@.len(),
        forall|v: int|
            0 <= v < out@.len() ==> (#[trigger] old(rem)@[v]) as nat == waits(
                lists(out@),
                taken(deps_of(lists(out@)), p),
                v as usize,
                out@.len(),
            ),
    ensures
        final(rem)@.len() == out@.len(),
        forall|v: int|
            0 <= v < out@.len() ==> (#[trigger] final(rem)@[v]) as nat == waits(
                lists(out@),
                taken(deps_of(lists(out@)), p + 1),
                v as usize,
                out@.len(),
            ),
        next@.no_duplicates(),
        forall|v: usize| #[trigger]
            next@.contains(v) <==> v < out@.len() && in_phase(
                deps_of(lists(out@)),
                v as int,
                p + 1,
            ),
        forall|i: int, j: int|
            0 <= i < j < next@.len() ==> released_before(
                lists(out@),
                ready@,
                #[trigger] next@[i],
                #[trigger] next@[j],
            ),
{
    let ghost ov = lists(out@);
    let ghost deps = deps_of(ov);
    let count: usize = out.len();
    let ghost n = out@.len();
    let mut next: Vec<usize> = Vec::new();
    let ghost mut events: Seq<(int, int)> = Seq::empty();
    let ghost mut finished: Set<int> = taken(deps, p);
    let mut a: usize = 0;
    proof {
        assert forall|v: usize| v < rem@.len() && rem@[v as int] == 0 implies settled(
            deps,
            v as int,
            p + 1,
        ) by {
            lemma_settles_when_none_wait(ov, v, p);
        }
    }
    while a < ready.len()
        invariant
            a <= ready@.len(),
            ov == lists(out@),
            deps == deps_of(ov),
            n == out@.len(),
            n == count,
            lists_in_range(ov),
            ready@.no_duplicates(),
            forall|v: usize| #[trigger]
                ready@.contains(v) <==> v < n && in_phase(deps, v as int, p),
            rem@.len() == n,
            forall|d: int| #[trigger]
                finished.contains(d) <==> 0 <= d < n && (settled(deps, d, p) || exists|i: int|
                    0 <= i < a && ready@[i] == d),
            forall|v: int|
                0 <= v < n ==> (#[trigger] rem@[v]) as nat == waits(ov, finished, v as usize, n),
            released(ov, deps, p, ready@, rem@, next@, events, a as int, 0),
        decreases ready@.len() - a,
    {
        let i: usize = ready[a];
        proof {
            assert(ready@.contains(i));
            assert(!finished.contains(i as int));
        }
        let ghost before = finished;
        let mut t: usize = 0;
        assert(ov[i as int].take(0) =~= Seq::<usize>::empty());
        while t < out[i].len()
            invariant
                a < ready@.len(),
                i == ready@[a as int],
                i < n,
                t <= ov[i as int].len(),
                ov == lists(out@),
                deps == deps_of(ov),
                n == out@.len(),
                n == count,
                lists_in_range(ov),
                !settled(deps, i as int, p),
                !before.contains(i as int),
                rem@.len() == n,
                forall|v: int|
                    0 <= v < n ==> (#[trigger] rem@[v]) + times(
                        ov[i as int].take(t as int),
                        v as usize,
                    ) == waits(ov, before, v as usize, n),
                released(ov, deps, p, ready@, rem@, next@, events, a as int, t as int),
            decreases ov[i as int].len() - t,
        {
            let v: usize = out[i][t];
            proof {
                assert(ov[i as int][t as int] == v);
                lemma_waits_finish(ov, before, i as int, v, n);
                lemma_times_take(ov[i as int], t as int, v);
                lemma_times_take_bound(ov[i as int], t + 1, v);
                assert(rem@[v as int] > 0);
                assert(ov[i as int].contains(v));
                assert(deps[v as int].contains(i as int));
            }
            let ghost rem0 = rem@;
            let ghost next0 = next@;
            let ghost events0 = events;
            rem.set(v as usize, rem[v] - 1);
            proof {
                assert forall|w: int| 0 <= w < n implies (#[trigger] rem@[w]) + times(
                    ov[i as int].take(t + 1),
                    w as usize,
                ) == waits(ov, before, w as usize, n) by {
                    assert(rem0[w] + times(ov[i as int].take(t as int), w as usize) == waits(
                        ov,
                        before,
                        w as usize,
                        n,
                    ));
                    lemma_times_take(ov[i as int], t as int, w as usize);
                }
            }
            if rem[v] == 0 {
                next.push(v);
                proof {
                    events = events.push((a as int, t as int));
                }
            }
            proof {
                lemma_release_step(
                    ov,
                    deps,
                    p,
                    ready@,
                    rem0,
                    next0,
                    events0,
                    a as int,
                    t as int,
                    v,
                    rem@,
                    next@,
                    events,
                );
            }
            t += 1;
        }
        proof {
            assert(ov[i as int].take(t as int) =~= ov[i as int]);
            finished = finished.insert(i as int);
            assert forall|v: int| 0 <= v < n implies (#[trigger] rem@[v]) as nat == waits(
                ov,
                finished,
                v as usize,
                n,
            ) by {
                lemma_waits_finish(ov, before, i as int, v as usize, n);
            }
            assert forall|d: int| #[trigger] finished.contains(d) <==> 0 <= d < n && (settled(
                deps,
                d,
                p,
            ) || exists|q: int| 0 <= q < a + 1 && ready@[q] == d) by {
                if finished.contains(d) {
                    if d == i {
                        assert(ready@[a as int] == d);
                    } else {
                        assert(before.contains(d));
                    }
                }
                if exists|q: int| 0 <= q < a + 1 && ready@[q] == d {
                    let q = choose|q: int| 0 <= q < a + 1 && ready@[q] == d;
                    assert(ready@.contains(ready@[q]));
                    if q < a {
                        assert(before.contains(d));
                    }
                }
            }
            assert(released(ov, deps, p, ready@, rem@, next@, events, a + 1, 0));
        }
        a += 1;
    }
    proof {
        assert forall|d: int| 0 <= d < n implies (finished.contains(d) <==> taken(
            deps,
            p + 1,
        ).contains(d)) by {
            if finished.contains(d) {
                if settled(deps, d, p) {
                    lemma_settled_monotone(deps, d, p, p + 1);
                } else {
                    let q = choose|q: int| 0 <= q < a && ready@[q] == d;
                    assert(ready@.contains(ready@[q]));
                }
            } else if settled(deps, d, p + 1) {
                assert(ready@.contains(d as usize));
                let q = choose|q: int| 0 <= q < ready@.len() && ready@[q] == d as usize;
                assert(ready@[q] == d);
            }
        }
        assert forall|v: int| 0 <= v < n implies (#[trigger] rem@[v]) as nat == waits(
            ov,
            taken(deps, p + 1),
            v as usize,
            n,
        ) by {
            lemma_waits_same(ov, finished, taken(deps, p + 1), v as usize, n);
        }
        assert forall|v: usize| #[trigger] next@.contains(v) <==> v < n && in_phase(
            deps,
            v as int,
            p + 1,
        ) by {
            if v < n {
                lemma_settles_when_none_wait(ov, v, p + 1);
                assert(rem@[v as int] as nat == waits(ov, taken(deps, p + 1), v, n));
            }
        }
        assert forall|i: int, j: int| 0 <= i < j < next@.len() implies released_before(
            ov,
            ready@,
            #[trigger] next@[i],
            #[trigger] next@[j],
        ) by {
            assert(earlier(events[i], events[j]));
            assert(names_at(ov, ready@, events[j].0, events[j].1, next@[j]));
            assert forall|r2: int, t2: int| #[trigger] names_at(
                ov,
                ready@,
                r2,
                t2,
                next@[i],
            ) implies earlier((r2, t2), (events[j].0, events[j].1)) by {
                assert(earlier((r2, t2), (a as int, 0)));
                assert(!earlier(events[i], (r2, t2)));
            }
        }
    }
    next
}

/// One step of a round: entry `t` of the list at place `a` names `v`.
proof fn lemma_release_step(
    out: Seq<Seq<usize>>,
    deps: Seq<Set<int>>,
    p: nat,
    ready: Seq<usize>,
    rem: Seq<usize>,
    next: Seq<usize>,
    events: Seq<(int, int)>,
    a: int,
    t: int,
    v: usize,
    rem2: Seq<usize>,
    next2: Seq<usize>,
    events2: Seq<(int, int)>,
)
    requires
        released(out, deps, p, ready, rem, next, events, a, t),
        names_at(out, ready, a, t, v),
        v < rem.len(),
        rem[v as int] > 0,
        rem2 == rem.update(v as int, (rem[v as int] - 1) as usize),
        rem2[v as int] == 0 ==> next2 == next.push(v) && events2 == events.push((a, t)),
        rem2[v as int] != 0 ==> next2 == next && events2 == events,
        !settled(deps, v as int, p + 1),
    ensures
        released(out, deps, p, ready, rem2, next2, events2, a, t + 1),
{
    assert(!next.contains(v));
    assert forall|x: int, r: int, s: int|
        0 <= x < next2.len() && #[trigger] names_at(out, ready, r, s, next2[x]) && earlier(
            (r, s),
            (a, t + 1),
        ) implies !earlier(events2[x], (r, s)) by {
        if x < next.len() {
            assert(next2[x] == next[x]);
            assert(next.contains(next[x]));
            if r == a && s == t {
                assert(next[x] == v);
            } else {
                assert(earlier((r, s), (a, t)));
            }
        }
    }
    if rem2[v as int] == 0 {
        assert forall|w: usize| #[trigger] next2.contains(w) <==> w < rem2.len() && rem2[w as int]
            == 0 && !settled(deps, w as int, p + 1) by {
            if w == v {
                assert(next2[next.len() as int] == v);
            } else {
                if next2.contains(w) {
                    let k = choose|k: int| 0 <= k < next2.len() && next2[k] == w;
                    assert(next[k] == w);
                    assert(next.contains(w));
                }
                if next.contains(w) {
                    let k = choose|k: int| 0 <= k < next.len() && next[k] == w;
                    assert(next2[k] == w);
                }
            }
        }
        assert forall|x: int| 0 <= x < next2.len() implies names_at(
            out,
            ready,
            events2[x].0,
            events2[x].1,
            #[trigger] next2[x],
        ) && earlier(events2[x], (a, t + 1)) by {
            if x < next.len() {
                assert(next2[x] == next[x]);
            }
        }
        assert forall|x: int, y: int| 0 <= x < y < next2.len() implies earlier(
            #[trigger] events2[x],
            #[trigger] events2[y],
        ) by {
            assert(events2[x] == events[x]);
            assert(names_at(out, ready, events[x].0, events[x].1, next[x]));
            if y < next.len() {
                assert(events2[y] == events[y]);
            }
        }
        assert forall|x: int, y: int| 0 <= x < y < next2.len() implies next2[x] != next2[y] by {
            assert(next.contains(next[x]));
        }
        assert(next2.no_duplicates());
    } else {
        assert forall|w: usize| #[trigger] next2.contains(w) <==> w < rem2.len() && rem2[w as int]
            == 0 && !settled(deps, w as int, p + 1) by {
            assert(next.contains(w) <==> w < rem.len() && rem[w as int] == 0 && !settled(
                deps,
                w as int,
                p + 1,
            ));
        }
    }
}

/// The phases of a graph, and how many nodes they list together.
pub struct Peeled {
    pub phases: Vec<Vec<usize>>,
    pub emitted: usize,
}

/// Numbers that repeat nothing and are exactly the members of a set are as many.
proof fn lemma_listing_counts(flat: Seq<usize>, members: Set<int>)
    requires
        flat.no_duplicates(),
        forall|v: usize| #[trigger] flat.contains(v) <==> members.contains(v as int),
        forall|v: int| #[trigger] members.contains(v) ==> 0 <= v <= usize::MAX,
    ensures
        members.len() == flat.len(),
{
    let ints = flat.map_values(|v: usize| v as int);
    assert forall|i: int, j: int| 0 <= i < ints.len() && 0 <= j < ints.len() && i != j implies ints[i]
        != ints[j] by {
        assert(flat[i] != flat[j]);
    }
    ints.unique_seq_to_set();
    assert forall|v: int| ints.to_set().contains(v) <==> members.contains(v) by {
        if ints.contains(v) {
            let i = choose|i: int| 0 <= i < ints.len() && ints[i] == v;
            assert(flat.contains(flat[i]));
        }
        if members.contains(v) {
            assert(flat.contains(v as usize));
            let i = choose|i: int| 0 <= i < flat.len() && flat[i] == v as usize;
            assert(ints[i] == v);
        }
    }
    assert(ints.to_set() =~= members);
}

/// Peels a graph round by round.
///
/// `out` lists for each node the nodes that wait for it, `indeg` tells how often
/// each node is so listed. Within a phase nodes are listed by key; where keys are
/// the same, by number in the first phase, and in the order of their release in
/// the others. Nodes on a cycle, or behind one, are never emitted.
pub fn peel(indeg: Vec<usize>, out: &Vec<Vec<usize>>, keys: &Vec<Vec<Vec<char>>>) -> (r: Peeled)
    requires
        lists_in_range(lists(out@)),
        keys@.len() == out@.len(),
        indeg@.len() == out@.len(),
        forall|v: int|
            0 <= v < out@.len() ==> (#[trigger] indeg@[v]) as nat == waits(
                lists(out@),
                Set::empty(),
                v as usize,
                out@.len(),
            ),
    ensures
        is_layering(deps_of(lists(out@)), lists(r.phases@)),
        in_order(lists(out@), order::table_view(keys@), lists(r.phases@)),
        r.emitted == reachable(deps_of(lists(out@))).len(),
        r.emitted <= out@.len(),
        r.emitted == out@.len() <==> !has_cycle(deps_of(lists(out@))),
{
    let n: usize = out.len();
    let ghost ov = lists(out@);
    let ghost deps = deps_of(ov);
    let ghost kv = order::table_view(keys@);
    let mut rem: Vec<usize> = indeg;
    let mut first: Vec<usize> = Vec::new();
    let mut i: usize = 0;
    proof {
        assert(taken(deps, 0) =~= Set::<int>::empty());
    }
    while i < n
        invariant
            i <= n,
            n == out@.len(),
            ov == lists(out@),
            deps == deps_of(ov),
            rem@.len() == n,
            forall|v: int|
                0 <= v < n ==> (#[trigger] rem@[v]) as nat == waits(
                    ov,
                    taken(deps, 0),
                    v as usize,
                    n as nat,
                ),
            forall|v: usize| #[trigger]
                first@.contains(v) <==> v < i && in_phase(deps, v as int, 0),
            forall|x: int, y: int|
                0 <= x < y < first@.len() ==> #[trigger] first@[x] < #[trigger] first@[y],
            forall|x: int| 0 <= x < first@.len() ==> #[trigger] first@[x] < i,
        decreases n - i,
    {
        let ghost first0 = first@;
        if rem[i] == 0 {
            first.push(i);
        }
        proof {
            lemma_settles_when_none_wait(ov, i, 0);
            assert(rem@[i as int] as nat == waits(ov, taken(deps, 0), i, n as nat));
            assert forall|v: usize| #[trigger] first@.contains(v) <==> v < i + 1 && in_phase(
                deps,
                v as int,
                0,
            ) by {
                if first@.contains(v) {
                    let k = choose|k: int| 0 <= k < first@.len() && first@[k] == v;
                    if k < first0.len() {
                        assert(first0[k] == v);
                        assert(first0.contains(v));
                    }
                }
                if v < i && in_phase(deps, v as int, 0) {
                    assert(first0.contains(v));
                    let k = choose|k: int| 0 <= k < first0.len() && first0[k] == v;
                    assert(first@[k] == v);
                }
                if v == i && in_phase(deps, v as int, 0) {
                    assert(first@[first@.len() - 1] == v);
                }
            }
        }
        i += 1;
    }
    proof {
        assert forall|x: int| 0 <= x < first@.len() implies #[trigger] first@[x] < keys@.len() by {}
    }
    let mut ready: Vec<usize> = order::sort_positions(&first, keys);
    let mut phases: Vec<Vec<usize>> = Vec::new();
    let mut emitted: usize = 0;
    let ghost mut flat: Seq<usize> = Seq::empty();
    let ghost mut p: nat = 0;
    proof {
        assert forall|x: int, y: int| 0 <= x < y < ready@.len() implies stands_before(
            ov,
            kv,
            lists(phases@),
            0,
            #[trigger] ready@[x],
            #[trigger] ready@[y],
        ) by {
            let u = ready@[x];
            let v = ready@[y];
            assert(order::listed_before(kv, first@, u, v));
            assert(ready@.contains(u) && ready@.contains(v));
            let a = first@.index_of(u);
            let b = first@.index_of(v);
            assert(first@[a] == u && first@[b] == v);
        }
    }
    while ready.len() > 0
        invariant
            n == out@.len(),
            n == keys@.len(),
            ov == lists(out@),
            deps == deps_of(ov),
            kv == order::table_view(keys@),
            lists_in_range(ov),
            rem@.len() == n,
            p == phases@.len(),
            forall|v: int|
                0 <= v < n ==> (#[trigger] rem@[v]) as nat == waits(
                    ov,
                    taken(deps, p),
                    v as usize,
                    n as nat,
                ),
            ready@.no_duplicates(),
            forall|v: usize| #[trigger]
                ready@.contains(v) <==> v < n && in_phase(deps, v as int, p),
            forall|x: int, y: int|
                0 <= x < y < ready@.len() ==> stands_before(
                    ov,
                    kv,
                    lists(phases@),
                    p as int,
                    #[trigger] ready@[x],
                    #[trigger] ready@[y],
                ),
            forall|q: int|
                0 <= q < phases@.len() ==> (#[trigger] lists(phases@)[q]).len() > 0 && lists(
                    phases@,
                )[q].no_duplicates(),
            forall|q: int, v: usize|
                0 <= q < phases@.len() ==> (#[trigger] lists(phases@)[q].contains(v) <==> v < n
                    && in_phase(deps, v as int, q as nat)),
            in_order(ov, kv, lists(phases@)),
            flat.no_duplicates(),
            flat.len() == emitted,
            forall|v: usize| #[trigger] flat.contains(v) <==> v < n && settled(deps, v as int, p),
        decreases n - emitted,
    {
        let next = release(&ready, out, &mut rem, Ghost(p));
        proof {
            assert forall|x: int| 0 <= x < next@.len() implies #[trigger] next@[x]
                < keys@.len() by {
                assert(next@.contains(next@[x]));
            }
        }
        let sorted = order::sort_positions(&next, keys);
        let ghost flat2 = flat + ready@;
        proof {
            assert forall|v: usize| #[trigger] flat2.contains(v) <==> v < n && settled(
                deps,
                v as int,
                p + 1,
            ) by {
                if flat2.contains(v) {
                    let k = choose|k: int| 0 <= k < flat2.len() && flat2[k] == v;
                    if k < flat.len() {
                        assert(flat.contains(flat[k]));
                        lemma_settled_monotone(deps, v as int, p, p + 1);
                    } else {
                        assert(ready@.contains(ready@[k - flat.len()]));
                    }
                }
                if v < n && settled(deps, v as int, p + 1) {
                    if settled(deps, v as int, p) {
                        assert(flat.contains(v));
                        let k = choose|k: int| 0 <= k < flat.len() && flat[k] == v;
                        assert(flat2[k] == v);
                    } else {
                        assert(ready@.contains(v));
                        let k = choose|k: int| 0 <= k < ready@.len() && ready@[k] == v;
                        assert(flat2[k + flat.len()] == v);
                    }
                }
            }
            assert forall|x: int, y: int| 0 <= x < y < flat2.len() implies flat2[x] != flat2[y] by {
                if x < flat.len() && y >= flat.len() {
                    assert(flat.contains(flat[x]));
                    assert(ready@.contains(ready@[y - flat.len()]));
                }
            }
            assert(flat2.no_duplicates());
            let members = taken(deps, p + 1);
            assert forall|v: int| #[trigger] members.contains(v) implies 0 <= v <= usize::MAX by {}
            lemma_listing_counts(flat2, members);
            vstd::set_lib::lemma_int_range(0, n as int);
            vstd::set_lib::lemma_len_subset(members, vstd::set_lib::set_int_range(0, n as int));
            assert(flat2.len() <= n);
        }
        let size: usize = ready.len();
        emitted = emitted + size;
        let ghost phases0 = lists(phases@);
        let ghost taken_now = ready@;
        phases.push(ready);
        ready = sorted;
        proof {
            flat = flat2;
            let ph = lists(phases@);
            assert(ph =~= phases0.push(taken_now));
            assert forall|q: int, x: int, y: int|
                0 <= q < ph.len() && 0 <= x < y < ph[q].len() implies stands_before(
                ov,
                kv,
                ph,
                q,
                #[trigger] ph[q][x],
                #[trigger] ph[q][y],
            ) by {
                if q < phases0.len() {
                    assert(ph[q] == phases0[q]);
                    assert(stands_before(ov, kv, phases0, q, phases0[q][x], phases0[q][y]));
                } else {
                    assert(stands_before(ov, kv, phases0, q, taken_now[x], taken_now[y]));
                }
                if q > 0 {
                    assert(ph[q - 1] == phases0[q - 1]);
                }
            }
            assert forall|x: int, y: int| 0 <= x < y < ready@.len() implies stands_before(
                ov,
                kv,
                ph,
                (p + 1) as int,
                #[trigger] ready@[x],
                #[trigger] ready@[y],
            ) by {
                let u = ready@[x];
                let v = ready@[y];
                assert(order::listed_before(kv, next@, u, v));
                assert(ready@.contains(u) && ready@.contains(v));
                let a = next@.index_of(u);
                let b = next@.index_of(v);
                assert(next@[a] == u && next@[b] == v);
                assert(ph[p as int] == taken_now);
                if a < b {
                    assert(released_before(ov, taken_now, next@[a], next@[b]));
                }
            }
            assert forall|q: int| 0 <= q < ph.len() implies (#[trigger] ph[q]).len() > 0
                && ph[q].no_duplicates() by {
                if q < phases0.len() {
                    assert(ph[q] == phases0[q]);
                }
            }
            assert forall|q: int, v: usize| 0 <= q < ph.len() implies (#[trigger] ph[q].contains(v)
                <==> v < n && in_phase(deps, v as int, q as nat)) by {
                if q < phases0.len() {
                    assert(ph[q] == phases0[q]);
                    assert(phases0[q].contains(v) <==> v < n && in_phase(deps, v as int, q as nat));
                } else {
                    assert(ph[q] == taken_now);
                }
            }
            p = p + 1;
        }
    }
    proof {
        assert forall|u: int| 0 <= u < deps.len() implies !#[trigger] in_phase(deps, u, p) by {
            assert(!ready@.contains(u as usize));
        }
        assert forall|v: int, k: nat| 0 <= v < n && #[trigger] settled(deps, v, k) implies settled(
            deps,
            v,
            p,
        ) by {
            lemma_none_left_stays(deps, p, v, k);
        }
        let members = taken(deps, p);
        assert(members =~= reachable(deps)) by {
            assert forall|v: int| members.contains(v) <==> reachable(deps).contains(v) by {
                if members.contains(v) {
                    assert(settled(deps, v, p));
                }
                if reachable(deps).contains(v) {
                    let k = choose|k: nat| settled(deps, v, k);
                    assert(settled(deps, v, p));
                }
            }
        }
        lemma_listing_counts(flat, members);
        vstd::set_lib::lemma_int_range(0, n as int);
        vstd::set_lib::lemma_len_subset(members, vstd::set_lib::set_int_range(0, n as int));
        lemma_all_settle_iff_acyclic(deps, p);
        if emitted == n {
            vstd::set_lib::lemma_subset_equality(members, vstd::set_lib::set_int_range(0, n as int));
            assert forall|v: int| 0 <= v < n implies #[trigger] settled(deps, v, p) by {
                assert(members.contains(v));
            }
        } else {
            if forall|v: int| 0 <= v < n ==> #[trigger] settled(deps, v, p) {
                assert(members =~= vstd::set_lib::set_int_range(0, n as int));
            }
        }
    }
    Peeled { phases, emitted }
}

/// Once a round takes nothing, no later round does.
proof fn lemma_none_left_stays(deps: Seq<Set<int>>, p: nat, v: int, k: nat)
    requires
        closed(deps),
        forall|u: int| 0 <= u < deps.len() ==> !#[trigger] in_phase(deps, u, p),
        0 <= v < deps.len(),
        settled(deps, v, k),
    ensures
        settled(deps, v, p),
    decreases k,
{
    if k <= p {
        lemma_settled_monotone(deps, v, k, p);
    } else {
        assert forall|d: int| #[trigger] deps[v].contains(d) implies settled(deps, d, p) by {
            lemma_none_left_stays(deps, p, d, (k - 1) as nat);
        }
        assert(settled(deps, v, p + 1));
        assert(!in_phase(deps, v, p));
    }
}

// ---------------------------------------------------------------------------
// Peeling by lists of dependencies
// ---------------------------------------------------------------------------

/// The graph in which `v` waits for what its list names.
pub open spec fn sets_of(deps: Seq<Seq<usize>>) -> Seq<Set<int>> {
    Seq::new(
        deps.len(),
        |v: int|
            vstd::set_lib::set_int_range(0, deps.len() as int).filter(
                |d: int| deps[v].contains(d as usize),
            ),
    )
}

/// Of the nodes of `prev`, the last that `v` waits for stands after the last that
/// `u` waits for, or it is the same one and `u` has the smaller number.
pub open spec fn held_longer(
    deps: Seq<Seq<usize>>,
    prev: Seq<usize>,
    u: usize,
    v: usize,
) -> bool {
    exists|r: int|
        0 <= r < prev.len() && deps[v as int].contains(#[trigger] prev[r]) && forall|r2: int|
            0 <= r2 < prev.len() && deps[u as int].contains(#[trigger] prev[r2]) ==> r2 < r || (r2
                == r && u < v)
}

/// `u` stands before `v` in phase `p`: by key; where the keys are the same, by
/// number in the first phase, and in the others the node that was held longer
/// stands later.
pub open spec fn precedes(
    deps: Seq<Seq<usize>>,
    keys: Seq<Seq<Seq<char>>>,
    phases: Seq<Seq<usize>>,
    p: int,
    u: usize,
    v: usize,
) -> bool {
    ||| order::row_lt(keys[u as int], keys[v as int])
    ||| keys[u as int] == keys[v as int] && if p == 0 {
        u < v
    } else {
        held_longer(deps, phases[p - 1], u, v)
    }
}

/// Each phase is listed in its order.
pub open spec fn ordered(
    deps: Seq<Seq<usize>>,
    keys: Seq<Seq<Seq<char>>>,
    phases: Seq<Seq<usize>>,
) -> bool {
    forall|p: int, i: int, j: int|
        0 <= p < phases.len() && 0 <= i < j < phases[p].len() ==> precedes(
            deps,
            keys,
            phases,
            p,
            #[trigger] phases[p][i],
            #[trigger] phases[p][j],
        )
}

/// How many entries of `s` are below `m`.
spec fn below(s: Seq<usize>, m: nat) -> nat
    decreases m,
{
    if m == 0 {
        0
    } else {
        below(s, (m - 1) as nat) + times(s, (m - 1) as usize)
    }
}

proof fn lemma_below_push(s: Seq<usize>, x: usize, m: nat)
    requires
        m <= usize::MAX,
    ensures
        below(s.push(x), m) == below(s, m) + if x < m {
            1nat
        } else {
            0nat
        },
    decreases m,
{
    if m > 0 {
        lemma_below_push(s, x, (m - 1) as nat);
        lemma_times_push(s, x, (m - 1) as usize);
    }
}

proof fn lemma_below_all(s: Seq<usize>, n: nat)
    requires
        n <= usize::MAX,
        forall|i: int| 0 <= i < s.len() ==> #[trigger] s[i] < n,
    ensures
        below(s, n) == s.len(),
    decreases s.len(),
{
    if s.len() == 0 {
        lemma_below_empty(s, n);
    } else {
        let front = s.drop_last();
        assert(s =~= front.push(s.last()));
        lemma_below_push(front, s.last(), n);
        assert forall|i: int| 0 <= i < front.len() implies #[trigger] front[i] < n by {
            assert(s[i] < n);
        }
        lemma_below_all(front, n);
    }
}

proof fn lemma_below_empty(s: Seq<usize>, n: nat)
    requires
        s.len() == 0,
    ensures
        below(s, n) == 0,
    decreases n,
{
    if n > 0 {
        lemma_below_empty(s, (n - 1) as nat);
    }
}

/// Where each list names `v` as often as `s` names the list's node, `v` is named
/// as often as `s` has entries.
proof fn lemma_waits_transposed(out: Seq<Seq<usize>>, s: Seq<usize>, v: usize, m: nat)
    requires
        m <= out.len(),
        out.len() <= usize::MAX,
        forall|d: int| 0 <= d < m ==> times(#[trigger] out[d], v) == times(s, d as usize),
    ensures
        waits(out, Set::empty(), v, m) == below(s, m),
    decreases m,
{
    if m > 0 {
        lemma_waits_transposed(out, s, v, (m - 1) as nat);
        assert(times(out[m - 1], v) == times(s, (m - 1) as usize));
    }
}

/// How often the list of `v`, read up to entry `k` of list `i`, names `d`.
spec fn named_so_far(deps: Seq<Seq<usize>>, i: int, k: int, d: usize, v: int) -> nat {
    if v < i {
        times(deps[v], d)
    } else if v == i {
        times(deps[v].take(k), d)
    } else {
        0
    }
}

/// Lists of dependents read so far.
spec fn transposed(deps: Seq<Seq<usize>>, out: Seq<Seq<usize>>, i: int, k: int) -> bool {
    &&& out.len() == deps.len()
    &&& forall|d: int, v: usize|
        0 <= d < out.len() && v < out.len() ==> #[trigger] times(out[d], v) == named_so_far(
            deps,
            i,
            k,
            d as usize,
            v as int,
        )
    &&& forall|d: int, t: int|
        0 <= d < out.len() && 0 <= t < out[d].len() ==> #[trigger] out[d][t] <= i && out[d][t]
            < out.len()
    &&& forall|d: int, t: int, t2: int|
        0 <= d < out.len() && 0 <= t < t2 < out[d].len() ==> #[trigger] out[d][t]
            <= #[trigger] out[d][t2]
}

proof fn lemma_transpose_step(
    deps: Seq<Seq<usize>>,
    out: Seq<Seq<usize>>,
    out2: Seq<Seq<usize>>,
    i: usize,
    k: int,
)
    requires
        deps.len() <= usize::MAX,
        i < deps.len(),
        0 <= k < deps[i as int].len(),
        deps[i as int][k] < deps.len(),
        transposed(deps, out, i as int, k),
        out2 == out.update(
            deps[i as int][k] as int,
            out[deps[i as int][k] as int].push(i),
        ),
    ensures
        transposed(deps, out2, i as int, k + 1),
{
    let x = deps[i as int][k];
    assert forall|d: int, v: usize| 0 <= d < out2.len() && v < out2.len() implies #[trigger] times(
        out2[d],
        v,
    ) == named_so_far(deps, i as int, k + 1, d as usize, v as int) by {
        assert(times(out[d], v) == named_so_far(deps, i as int, k, d as usize, v as int));
        if d == x {
            lemma_times_push(out[d], i, v);
        }
        if v == i {
            lemma_times_take(deps[i as int], k, d as usize);
        }
    }
    assert forall|d: int, t: int| 0 <= d < out2.len() && 0 <= t < out2[d].len() implies #[trigger] out2[d][t]
        <= i && out2[d][t] < out2.len() by {
        if d == x {
            if t < out[d].len() {
                assert(out2[d][t] == out[d][t]);
            }
        } else {
            assert(out2[d] == out[d]);
        }
    }
    assert forall|d: int, t: int, t2: int|
        0 <= d < out2.len() && 0 <= t < t2 < out2[d].len() implies #[trigger] out2[d][t]
        <= #[trigger] out2[d][t2] by {
        assert(out2[d][t] == out[d][t]);
        if d == x && t2 == out[d].len() {
            assert(out[d][t] <= i);
        } else {
            assert(out2[d][t2] == out[d][t2]);
        }
    }
}

/// Peels the graph in which each node waits for the nodes that its list names.
pub fn peel_dependencies(deps: &Vec<Vec<usize>>, keys: &Vec<Vec<Vec<char>>>) -> (r: Peeled)
    requires
        lists_in_range(lists(deps@)),
        keys@.len() == deps@.len(),
    ensures
        is_layering(sets_of(lists(deps@)), lists(r.phases@)),
        ordered(lists(deps@), order::table_view(keys@), lists(r.phases@)),
        r.emitted == reachable(sets_of(lists(deps@))).len(),
        r.emitted <= deps@.len(),
        r.emitted == deps@.len() <==> !has_cycle(sets_of(lists(deps@))),
{
    let n: usize = deps.len();
    let ghost dv = lists(deps@);
    let mut indeg: Vec<usize> = Vec::new();
    let mut out: Vec<Vec<usize>> = Vec::new();
    let mut i: usize = 0;
    while i < n
        invariant
            i <= n,
            n == deps@.len(),
            dv == lists(deps@),
            indeg@.len() == i,
            out@.len() == i,
            forall|v: int| 0 <= v < i ==> (#[trigger] indeg@[v]) as nat == dv[v].len(),
            forall|v: int| 0 <= v < i ==> (#[trigger] out@[v])@ == Seq::<usize>::empty(),
        decreases n - i,
    {
        indeg.push(deps[i].len());
        out.push(Vec::new());
        i += 1;
    }
    i = 0;
    assert(transposed(dv, lists(out@), 0, 0)) by {
        if n > 0 {
            assert(dv[0].take(0) =~= Seq::<usize>::empty());
        }
    }
    while i < n
        invariant
            i <= n,
            n == deps@.len(),
            dv == lists(deps@),
            lists_in_range(dv),
            transposed(dv, lists(out@), i as int, 0),
        decreases n - i,
    {
        let mut k: usize = 0;
        while k < deps[i].len()
            invariant
                i < n,
                k <= dv[i as int].len(),
                n == deps@.len(),
                dv == lists(deps@),
                lists_in_range(dv),
                transposed(dv, lists(out@), i as int, k as int),
            decreases dv[i as int].len() - k,
        {
            let d: usize = deps[i][k];
            let ghost before = lists(out@);
            assert(dv[i as int][k as int] == d);
            out[d].push(i);
            proof {
                assert(lists(out@) =~= before.update(d as int, before[d as int].push(i)));
                lemma_transpose_step(dv, before, lists(out@), i, k as int);
            }
            k += 1;
        }
        proof {
            let ov = lists(out@);
            assert(dv[i as int].take(k as int) =~= dv[i as int]);
            assert forall|d: int, v: usize| 0 <= d < ov.len() && v < ov.len() implies #[trigger] times(
                ov[d],
                v,
            ) == named_so_far(dv, i + 1, 0, d as usize, v as int) by {
                assert(times(ov[d], v) == named_so_far(dv, i as int, k as int, d as usize, v as int));
                if v == i + 1 {
                    assert(dv[v as int].take(0) =~= Seq::<usize>::empty());
                }
            }
            assert(transposed(dv, ov, i + 1, 0));
        }
        i += 1;
    }
    proof {
        let ov = lists(out@);
        assert(lists_in_range(ov)) by {
            assert forall|d: int, t: int| 0 <= d < ov.len() && 0 <= t < ov[d].len() implies #[trigger] ov[d][t]
                < ov.len() by {
            }
        }
        assert forall|v: int| 0 <= v < n implies (#[trigger] indeg@[v]) as nat == waits(
            ov,
            Set::empty(),
            v as usize,
            n as nat,
        ) by {
            assert forall|d: int| 0 <= d < n implies times(#[trigger] ov[d], v as usize) == times(
                dv[v],
                d as usize,
            ) by {
                assert(times(ov[d], v as usize) == named_so_far(dv, n as int, 0, d as usize, v));
            }
            lemma_waits_transposed(ov, dv[v], v as usize, n as nat);
            assert forall|x: int| 0 <= x < dv[v].len() implies #[trigger] dv[v][x] < n by {}
            lemma_below_all(dv[v], n as nat);
        }
        assert forall|d: int, v: usize| 0 <= d < n && v < n implies (#[trigger] ov[d].contains(v)
            <==> dv[v as int].contains(d as usize)) by {
            assert(times(ov[d], v) == named_so_far(dv, n as int, 0, d as usize, v as int));
            lemma_times_contains(ov[d], v);
            lemma_times_contains(dv[v as int], d as usize);
        }
        assert(deps_of(ov) =~= sets_of(dv)) by {
            assert forall|v: int| 0 <= v < n implies deps_of(ov)[v] =~= sets_of(dv)[v] by {
                assert forall|d: int| deps_of(ov)[v].contains(d) <==> sets_of(dv)[v].contains(
                    d,
                ) by {
                    if 0 <= d < n {
                        assert(ov[d].contains(v as usize) <==> dv[v].contains(d as usize));
                    }
                }
            }
        }
    }
    let r = peel(indeg, &out, keys);
    proof {
        let ov = lists(out@);
        let kv = order::table_view(keys@);
        let ph = lists(r.phases@);
        assert forall|p: int, i: int, j: int|
            0 <= p < ph.len() && 0 <= i < j < ph[p].len() implies precedes(
            dv,
            kv,
            ph,
            p,
            #[trigger] ph[p][i],
            #[trigger] ph[p][j],
        ) by {
            let u = ph[p][i];
            let v = ph[p][j];
            assert(stands_before(ov, kv, ph, p, u, v));
            assert(ph[p].contains(u) && ph[p].contains(v));
            assert(u != v);
            if p > 0 && released_before(ov, ph[p - 1], u, v) {
                assert forall|x: int| 0 <= x < ph[p - 1].len() implies #[trigger] ph[p - 1][x] < n by {
                    assert(ph[p - 1].contains(ph[p - 1][x]));
                }
                lemma_release_is_hold(dv, ov, ph[p - 1], u, v);
            }
        }
    }
    r
}

/// Among ascending lists, release order is the order of being held.
proof fn lemma_release_is_hold(
    deps: Seq<Seq<usize>>,
    out: Seq<Seq<usize>>,
    prev: Seq<usize>,
    u: usize,
    v: usize,
)
    requires
        out.len() == deps.len(),
        out.len() <= usize::MAX,
        u < out.len(),
        v < out.len(),
        u != v,
        forall|x: int| 0 <= x < prev.len() ==> #[trigger] prev[x] < out.len(),
        forall|d: int, w: usize|
            0 <= d < out.len() && w < out.len() ==> (#[trigger] out[d].contains(w)
                <==> deps[w as int].contains(d as usize)),
        forall|d: int, t: int, t2: int|
            0 <= d < out.len() && 0 <= t < t2 < out[d].len() ==> #[trigger] out[d][t]
                <= #[trigger] out[d][t2],
        released_before(out, prev, u, v),
    ensures
        held_longer(deps, prev, u, v),
{
    let (r, t) = choose|r: int, t: int| #[trigger]
        names_at(out, prev, r, t, v) && forall|r2: int, t2: int| #[trigger]
            names_at(out, prev, r2, t2, u) ==> earlier((r2, t2), (r, t));
    assert(out[prev[r] as int].contains(v));
    assert(deps[v as int].contains(prev[r]));
    assert forall|r2: int|
        0 <= r2 < prev.len() && deps[u as int].contains(#[trigger] prev[r2]) implies r2 < r || (r2
        == r && u < v) by {
        assert(out[prev[r2] as int].contains(u));
        let t2 = choose|t2: int|
            0 <= t2 < out[prev[r2] as int].len() && out[prev[r2] as int][t2] == u;
        assert(names_at(out, prev, r2, t2, u));
        if r2 == r {
            assert(out[prev[r] as int][t2] <= out[prev[r] as int][t]);
        }
    }
}

// ---------------------------------------------------------------------------
// Counting
// ---------------------------------------------------------------------------

/// How many entries the lists have together.
pub open spec fn total_len(phases: Seq<Seq<usize>>) -> nat
    decreases phases.len(),
{
    if phases.len() == 0 {
        0
    } else {
        total_len(phases.drop_last()) + phases.last().len()
    }
}

/// How many entries the lists have together.
pub fn total_entries(phases: &[Vec<usize>]) -> (r: usize)
    requires
        total_len(lists(phases@)) <= usize::MAX,
    ensures
        r == total_len(lists(phases@)),
{
    let ghost all = lists(phases@);
    let mut total: usize = 0;
    let mut p: usize = 0;
    while p < phases.len()
        invariant
            p <= phases@.len(),
            all == lists(phases@),
            total == total_len(all.take(p as int)),
            total_len(all) <= usize::MAX,
        decreases phases@.len() - p,
    {
        proof {
            assert(all.take(p + 1).drop_last() =~= all.take(p as int));
            lemma_total_len_take(all, p + 1);
        }
        total = total + phases[p].len();
        p += 1;
    }
    assert(all.take(p as int) =~= all);
    total
}

/// The first lists have no more entries than all of them.
pub proof fn lemma_total_len_take(phases: Seq<Seq<usize>>, k: int)
    requires
        0 <= k <= phases.len(),
    ensures
        total_len(phases.take(k)) <= total_len(phases),
    decreases phases.len() - k,
{
    if k < phases.len() {
        lemma_total_len_take(phases, k + 1);
        assert(phases.take(k + 1).drop_last() =~= phases.take(k));
    } else {
        assert(phases.take(k) =~= phases);
    }
}

// ---------------------------------------------------------------------------
// Listing phases by number
// ---------------------------------------------------------------------------

/// Each entry is greater than the ones before it.
pub open spec fn rising(s: Seq<usize>) -> bool {
    forall|i: int, j: int| 0 <= i < j < s.len() ==> #[trigger] s[i] < #[trigger] s[j]
}

/// Every node that is listed lies below `n`, and in one phase only.
pub open spec fn listed_once(phases: Seq<Seq<usize>>, n: nat) -> bool {
    &&& forall|p: int, v: usize|
        0 <= p < phases.len() && #[trigger] phases[p].contains(v) ==> v < n
    &&& forall|p: int, q: int, v: usize|
        0 <= p < phases.len() && 0 <= q < phases.len() && #[trigger] phases[p].contains(v)
            && #[trigger] phases[q].contains(v) ==> p == q
}

/// `a` and `b` list the same nodes in each phase.
pub open spec fn same_members(a: Seq<Seq<usize>>, b: Seq<Seq<usize>>) -> bool {
    &&& a.len() == b.len()
    &&& forall|p: int, v: usize|
        0 <= p < a.len() ==> (#[trigger] a[p].contains(v) <==> #[trigger] b[p].contains(v))
}

/// Listing the phases of a layering in another order gives a layering.
pub proof fn lemma_relisted(deps: Seq<Set<int>>, a: Seq<Seq<usize>>, b: Seq<Seq<usize>>)
    requires
        is_layering(deps, a),
        same_members(a, b),
        forall|p: int| 0 <= p < b.len() ==> rising(#[trigger] b[p]),
    ensures
        is_layering(deps, b),
{
    assert forall|p: int| 0 <= p < b.len() implies (#[trigger] b[p]).len() > 0
        && b[p].no_duplicates() by {
        assert(a[p].len() > 0);
        let v = a[p][0];
        assert(a[p].contains(v));
        assert(b[p].contains(v));
    }
    assert forall|p: int, v: usize| 0 <= p < b.len() implies (#[trigger] b[p].contains(v)
        <==> v < deps.len() && in_phase(deps, v as int, p as nat)) by {
        assert(a[p].contains(v) <==> b[p].contains(v));
    }
}

/// A layering lists each node in one phase only.
pub proof fn lemma_layering_lists_once(deps: Seq<Set<int>>, phases: Seq<Seq<usize>>)
    requires
        is_layering(deps, phases),
    ensures
        listed_once(phases, deps.len()),
{
    assert forall|p: int, q: int, v: usize|
        0 <= p < phases.len() && 0 <= q < phases.len() && #[trigger] phases[p].contains(v)
            && #[trigger] phases[q].contains(v) implies p == q by {
        assert(in_phase(deps, v as int, p as nat));
        assert(in_phase(deps, v as int, q as nat));
        if p < q {
            lemma_settled_monotone(deps, v as int, (p + 1) as nat, q as nat);
        } else if q < p {
            lemma_settled_monotone(deps, v as int, (q + 1) as nat, p as nat);
        }
    }
}

/// Where every node waits for smaller ones only, node `v` is taken by round `v`.
pub proof fn lemma_descending_settles(deps: Seq<Set<int>>, v: int)
    requires
        0 <= v < deps.len(),
        forall|x: int, d: int|
            0 <= x < deps.len() && #[trigger] deps[x].contains(d) ==> 0 <= d < x,
    ensures
        settled(deps, v, (v + 1) as nat),
    decreases v,
{
    assert forall|d: int| #[trigger] deps[v].contains(d) implies settled(deps, d, v as nat) by {
        lemma_descending_settles(deps, d);
        lemma_settled_monotone(deps, d, (d + 1) as nat, v as nat);
    }
}

/// Lists the nodes of each phase by their numbers.
pub fn list_by_number(phases: &Vec<Vec<usize>>, n: usize) -> (r: Vec<Vec<usize>>)
    requires
        listed_once(lists(phases@), n as nat),
    ensures
        same_members(lists(phases@), lists(r@)),
        forall|p: int| 0 <= p < r@.len() ==> rising(#[trigger] lists(r@)[p]),
{
    let m: usize = phases.len();
    let ghost pv = lists(phases@);
    let mut phase_of: Vec<Option<usize>> = Vec::new();
    let mut r: Vec<Vec<usize>> = Vec::new();
    let mut v: usize = 0;
    while v < n
        invariant
            v <= n,
            phase_of@.len() == v,
            forall|x: int| 0 <= x < v ==> #[trigger] phase_of@[x] == None::<usize>,
        decreases n - v,
    {
        phase_of.push(None);
        v += 1;
    }
    let mut p: usize = 0;
    while p < m
        invariant
            p <= m,
            m == phases@.len(),
            pv == lists(phases@),
            listed_once(pv, n as nat),
            phase_of@.len() == n,
            r@.len() == p,
            forall|q: int| 0 <= q < p ==> (#[trigger] r@[q])@ == Seq::<usize>::empty(),
            forall|x: int|
                0 <= x < n ==> match #[trigger] phase_of@[x] {
                    Some(q) => q < p && pv[q as int].contains(x as usize),
                    None => true,
                },
            forall|x: usize, q: int|
                0 <= q < p && #[trigger] pv[q].contains(x) ==> phase_of@[x as int] == Some(
                    q as usize,
                ),
        decreases m - p,
    {
        let mut k: usize = 0;
        while k < phases[p].len()
            invariant
                p < m,
                m == phases@.len(),
                pv == lists(phases@),
                pv[p as int] == phases@[p as int]@,
                listed_once(pv, n as nat),
                phase_of@.len() == n,
                k <= pv[p as int].len(),
                forall|x: int|
                    0 <= x < n ==> match #[trigger] phase_of@[x] {
                        Some(q) => q <= p && pv[q as int].contains(x as usize),
                        None => true,
                    },
                forall|x: usize, q: int|
                    0 <= q < p && #[trigger] pv[q].contains(x) ==> phase_of@[x as int] == Some(
                        q as usize,
                    ),
                forall|j: int|
                    0 <= j < k ==> phase_of@[(#[trigger] pv[p as int][j]) as int] == Some(p),
            decreases pv[p as int].len() - k,
        {
            let x: usize = phases[p][k];
            let ghost before = phase_of@;
            assert(pv[p as int][k as int] == x);
            assert(pv[p as int].contains(x));
            phase_of.set(x, Some(p));
            proof {
                assert forall|j: int| 0 <= j < k + 1 implies phase_of@[(#[trigger] pv[p as int][j])
                    as int] == Some(p) by {
                    let y = pv[p as int][j];
                    assert(pv[p as int].contains(y));
                    if j < k {
                        assert(before[y as int] == Some(p));
                    }
                }
            }
            k += 1;
        }
        r.push(Vec::new());
        p += 1;
    }
    v = 0;
    while v < n
        invariant
            v <= n,
            m == phases@.len(),
            pv == lists(phases@),
            listed_once(pv, n as nat),
            phase_of@.len() == n,
            r@.len() == m,
            forall|x: int|
                0 <= x < n ==> match #[trigger] phase_of@[x] {
                    Some(q) => q < m && pv[q as int].contains(x as usize),
                    None => true,
                },
            forall|x: usize, q: int|
                0 <= q < m && #[trigger] pv[q].contains(x) ==> phase_of@[x as int] == Some(
                    q as usize,
                ),
            forall|q: int| 0 <= q < m ==> rising((#[trigger] r@[q])@),
            forall|q: int, x: usize|
                0 <= q < m ==> (#[trigger] r@[q]@.contains(x) <==> x < v && pv[q].contains(x)),
        decreases n - v,
    {
        let ghost before = r@;
        match phase_of[v] {
            Some(q) => {
                assert(pv[q as int].contains(v));
                r[q].push(v);
                proof {
                    let old_list = before[q as int]@;
                    let new_list = r@[q as int]@;
                    assert(new_list == old_list.push(v));
                    assert forall|i: int, j: int| 0 <= i < j < new_list.len() implies #[trigger]
                    new_list[i] < #[trigger] new_list[j] by {
                        if j == old_list.len() {
                            assert(old_list.contains(old_list[i]));
                        }
                    }
                    assert forall|x: usize| #[trigger] new_list.contains(x) <==> x < v + 1
                        && pv[q as int].contains(x) by {
                        if old_list.contains(x) {
                            let i = choose|i: int| 0 <= i < old_list.len() && old_list[i] == x;
                            assert(new_list[i] == x);
                        }
                        if x == v {
                            assert(new_list[old_list.len() as int] == v);
                        }
                        if new_list.contains(x) && x != v {
                            let i = choose|i: int| 0 <= i < new_list.len() && new_list[i] == x;
                            assert(old_list[i] == x);
                        }
                    }
                    assert forall|q2: int, x: usize| 0 <= q2 < m implies (#[trigger]
                    r@[q2]@.contains(x) <==> x < v + 1 && pv[q2].contains(x)) by {
                        if q2 != q {
                            assert(r@[q2] == before[q2]);
                            assert(before[q2]@.contains(x) <==> x < v && pv[q2].contains(x));
                        }
                    }
                }
            },
            None => {
                assert forall|q2: int, x: usize| 0 <= q2 < m implies (#[trigger]
                r@[q2]@.contains(x) <==> x < v + 1 && pv[q2].contains(x)) by {
                    assert(before[q2]@.contains(x) <==> x < v && pv[q2].contains(x));
                }
            },
        }
        v += 1;
    }
    proof {
        let rv = lists(r@);
        assert forall|q: int, x: usize| 0 <= q < pv.len() implies (#[trigger] pv[q].contains(x)
            <==> #[trigger] rv[q].contains(x)) by {
            assert(rv[q] == r@[q]@);
            assert(r@[q]@.contains(x) <==> x < n && pv[q].contains(x));
        }
    }
    r
}

/// The phases one after another.
spec fn run_together(phases: Seq<Seq<usize>>) -> Seq<usize>
    decreases phases.len(),
{
    if phases.len() == 0 {
        Seq::empty()
    } else {
        run_together(phases.drop_last()) + phases.last()
    }
}

proof fn lemma_run_together(phases: Seq<Seq<usize>>, n: nat)
    requires
        listed_once(phases, n),
        forall|p: int| 0 <= p < phases.len() ==> (#[trigger] phases[p]).no_duplicates(),
    ensures
        run_together(phases).len() == total_len(phases),
        run_together(phases).no_duplicates(),
        forall|v: usize| #[trigger] run_together(phases).contains(v) ==> is_listed(phases, v),
    decreases phases.len(),
{
    if phases.len() > 0 {
        let front = phases.drop_last();
        let last = phases.last();
        let q = phases.len() - 1;
        assert(phases[q] == last);
        assert forall|p: int, v: usize|
            0 <= p < front.len() && #[trigger] front[p].contains(v) implies v < n by {
            assert(phases[p].contains(v));
        }
        assert forall|p: int, p2: int, v: usize|
            0 <= p < front.len() && 0 <= p2 < front.len() && #[trigger] front[p].contains(v)
                && #[trigger] front[p2].contains(v) implies p == p2 by {
            assert(phases[p].contains(v));
            assert(phases[p2].contains(v));
        }
        lemma_run_together(front, n);
        let a = run_together(front);
        let all = run_together(phases);
        assert(all =~= a + last);
        assert forall|v: usize| #[trigger] a.contains(v) implies !last.contains(v) && is_listed(
            phases,
            v,
        ) by {
            assert(is_listed(front, v));
            let p = choose|p: int| 0 <= p < front.len() && #[trigger] front[p].contains(v);
            assert(phases[p].contains(v));
            if last.contains(v) {
                assert(phases[q].contains(v));
            }
        }
        assert forall|i: int, j: int| 0 <= i < j < all.len() implies all[i] != all[j] by {
            if j < a.len() {
                assert(a[i] != a[j]);
            } else if i >= a.len() {
                assert(last[i - a.len()] != last[j - a.len()]);
            } else {
                assert(a.contains(a[i]));
                assert(last.contains(last[j - a.len()]));
            }
        }
        assert forall|v: usize| #[trigger] all.contains(v) implies is_listed(phases, v) by {
            let i = choose|i: int| 0 <= i < all.len() && all[i] == v;
            if i < a.len() {
                assert(a.contains(a[i]));
            } else {
                assert(last[i - a.len()] == v);
                assert(phases[q].contains(v));
            }
        }
    }
}

/// The phases of a layering list no more nodes than the graph has.
pub proof fn lemma_layering_total(deps: Seq<Set<int>>, phases: Seq<Seq<usize>>)
    requires
        is_layering(deps, phases),
    ensures
        total_len(phases) <= deps.len(),
{
    lemma_layering_lists_once(deps, phases);
    lemma_run_together(phases, deps.len());
    let all = run_together(phases);
    let ints = all.map_values(|v: usize| v as int);
    assert forall|i: int, j: int| 0 <= i < ints.len() && 0 <= j < ints.len() && i != j implies ints[i]
        != ints[j] by {
        assert(all[i] != all[j]);
    }
    ints.unique_seq_to_set();
    let range = vstd::set_lib::set_int_range(0, deps.len() as int);
    assert forall|v: int| #[trigger] ints.to_set().contains(v) implies range.contains(v) by {
        let i = choose|i: int| 0 <= i < ints.len() && ints[i] == v;
        assert(all.contains(all[i]));
        assert(is_listed(phases, all[i]));
    }
    vstd::set_lib::lemma_int_range(0, deps.len() as int);
    vstd::set_lib::lemma_len_subset(ints.to_set(), range);
}

} // verus!
