//! Which units others depend on, directly or through others.

use vstd::prelude::*;
use crate::unit_graph::{self, UnitGraphUnit};
use crate::layers;

verus! {

/// Unit `i` directly depends on unit `d`.
pub open spec fn consumes(units: Seq<UnitGraphUnit>, i: int, d: int) -> bool {
    exists|k: int|
        0 <= k < units[i].dependencies@.len() && (#[trigger] units[i].dependencies@[k]).index == d
}

/// Some unit that is marked in `seeds` leads to unit `j`.
pub open spec fn reached_from(units: Seq<UnitGraphUnit>, seeds: Seq<bool>, j: int) -> bool {
    exists|i: int|
        0 <= i < seeds.len() && seeds[i] && #[trigger] unit_graph::is_reached(units, i, j)
}

/// Dependencies that name a unit are the edges of the graph.
pub proof fn lemma_consumes_is_edge(units: Seq<UnitGraphUnit>, i: int, d: int)
    requires
        0 <= i < units.len() <= usize::MAX,
        0 <= d < units.len(),
    ensures
        unit_graph::unit_deps(units)[i].contains(d) <==> consumes(units, i, d),
{
    let list = unit_graph::dep_lists(units)[i];
    if consumes(units, i, d) {
        let k = choose|k: int|
            0 <= k < units[i].dependencies@.len() && (#[trigger] units[i].dependencies@[k]).index
                == d;
        assert(list[k] == d as usize);
    }
    if list.contains(d as usize) {
        let k = choose|k: int| 0 <= k < list.len() && list[k] == d as usize;
        assert(units[i].dependencies@[k].index == d);
    }
}

/// A unit leads to itself.
pub proof fn lemma_reaches_itself(units: Seq<UnitGraphUnit>, i: int)
    requires
        0 <= i < units.len(),
    ensures
        unit_graph::is_reached(units, i, i),
{
    assert(layers::is_walk(unit_graph::unit_deps(units), seq![i]));
}

/// What leads to a unit leads to what that unit depends on.
pub proof fn lemma_reaches_further(units: Seq<UnitGraphUnit>, i: int, j: int, d: int)
    requires
        unit_graph::is_reached(units, i, j),
        consumes(units, j, d),
        0 <= d < units.len() <= usize::MAX,
    ensures
        unit_graph::is_reached(units, i, d),
{
    let deps = unit_graph::unit_deps(units);
    let walk = choose|walk: Seq<int>| #[trigger]
        layers::is_walk(deps, walk) && walk.first() == i && walk.last() == j;
    let longer = walk.push(d);
    assert(0 <= walk[walk.len() - 1] < deps.len());
    lemma_consumes_is_edge(units, j, d);
    assert forall|x: int| 0 <= x < longer.len() - 1 implies (#[trigger] deps[longer[x]]).contains(
        longer[x + 1],
    ) by {
        if x < walk.len() - 1 {
            assert(deps[walk[x]].contains(walk[x + 1]));
        }
    }
    assert(layers::is_walk(deps, longer));
    assert(longer.first() == i && longer.last() == d);
}

// ---------------------------------------------------------------------------
// Marking
// ---------------------------------------------------------------------------

/// Of the first `upto` dependencies of unit `j`, all that name a unit are marked.
spec fn consumed_marked(units: Seq<UnitGraphUnit>, marks: Seq<bool>, j: int, upto: int) -> bool {
    forall|k: int|
        0 <= k < upto && (#[trigger] units[j].dependencies@[k]).index < units.len()
            ==> marks[units[j].dependencies@[k].index as int]
}

/// Marks that are closed under dependency hold every entry of a walk whose first
/// entry they hold.
proof fn lemma_marks_cover(units: Seq<UnitGraphUnit>, marks: Seq<bool>, walk: Seq<int>, x: int)
    requires
        marks.len() == units.len() <= usize::MAX,
        layers::is_walk(unit_graph::unit_deps(units), walk),
        0 <= x < walk.len(),
        marks[walk[0]],
        forall|j: int|
            0 <= j < units.len() && #[trigger] marks[j] ==> consumed_marked(
                units,
                marks,
                j,
                units[j].dependencies@.len() as int,
            ),
    ensures
        marks[walk[x]],
    decreases x,
{
    if x > 0 {
        lemma_marks_cover(units, marks, walk, x - 1);
        let j = walk[x - 1];
        assert(0 <= walk[x - 1] < units.len());
        assert(0 <= walk[x] < units.len());
        assert(unit_graph::unit_deps(units)[walk[x - 1]].contains(walk[x - 1 + 1]));
        lemma_consumes_is_edge(units, j, walk[x]);
        let k = choose|k: int|
            0 <= k < units[j].dependencies@.len() && (#[trigger] units[j].dependencies@[k]).index
                == walk[x];
        assert(consumed_marked(units, marks, j, units[j].dependencies@.len() as int));
        assert(units[j].dependencies@[k].index < units.len());
    }
}

/// How many marks are not set.
spec fn unset(marks: Seq<bool>) -> nat
    decreases marks.len(),
{
    if marks.len() == 0 {
        0
    } else {
        unset(marks.drop_last()) + if marks.last() {
            0nat
        } else {
            1nat
        }
    }
}

proof fn lemma_set_mark(marks: Seq<bool>, i: int)
    requires
        0 <= i < marks.len(),
        !marks[i],
    ensures
        unset(marks.update(i, true)) == unset(marks) - 1,
    decreases marks.len(),
{
    let after = marks.update(i, true);
    if i == marks.len() - 1 {
        assert(after.drop_last() =~= marks.drop_last());
    } else {
        lemma_set_mark(marks.drop_last(), i);
        assert(after.drop_last() =~= marks.drop_last().update(i, true));
    }
}

/// Every marked unit but `skip` has all that it depends on marked, or waits on the
/// stack.
spec fn explored(
    units: Seq<UnitGraphUnit>,
    marks: Seq<bool>,
    stack: Seq<usize>,
    skip: int,
) -> bool {
    forall|j: int|
        0 <= j < units.len() && #[trigger] marks[j] && j != skip && !stack.contains(j as usize)
            ==> consumed_marked(units, marks, j, units[j].dependencies@.len() as int)
}

/// The stack holds marked units.
spec fn stacked(units: Seq<UnitGraphUnit>, marks: Seq<bool>, stack: Seq<usize>) -> bool {
    forall|x: int|
        0 <= x < stack.len() ==> #[trigger] stack[x] < units.len() && marks[stack[x] as int]
}

/// The marks are right so far: the seeds, and none but what they lead to.
spec fn marks_are_reached(
    units: Seq<UnitGraphUnit>,
    seeds: Seq<bool>,
    marks: Seq<bool>,
) -> bool {
    &&& marks.len() == units.len()
    &&& seeds.len() == units.len()
    &&& forall|j: int| 0 <= j < units.len() && #[trigger] seeds[j] ==> marks[j]
    &&& forall|j: int|
        0 <= j < units.len() && #[trigger] marks[j] ==> reached_from(units, seeds, j)
}

/// Taking a unit off the stack leaves only that one to explore.
proof fn lemma_pop(units: Seq<UnitGraphUnit>, marks: Seq<bool>, stack: Seq<usize>)
    requires
        stack.len() > 0,
        units.len() <= usize::MAX,
        explored(units, marks, stack, -1),
        stacked(units, marks, stack),
    ensures
        explored(units, marks, stack.drop_last(), stack.last() as int),
        stacked(units, marks, stack.drop_last()),
{
    let rest = stack.drop_last();
    assert forall|j: int|
        0 <= j < units.len() && #[trigger] marks[j] && j != stack.last() && !rest.contains(
            j as usize,
        ) implies consumed_marked(units, marks, j, units[j].dependencies@.len() as int) by {
        if stack.contains(j as usize) {
            let x = choose|x: int| 0 <= x < stack.len() && stack[x] == j as usize;
            assert(rest[x] == j as usize);
        }
    }
}

/// Marking a unit and putting it on the stack keeps the others explored.
proof fn lemma_mark(
    units: Seq<UnitGraphUnit>,
    marks: Seq<bool>,
    stack: Seq<usize>,
    skip: int,
    d: usize,
)
    requires
        marks.len() == units.len(),
        d < units.len(),
        explored(units, marks, stack, skip),
        stacked(units, marks, stack),
    ensures
        explored(units, marks.update(d as int, true), stack.push(d), skip),
        stacked(units, marks.update(d as int, true), stack.push(d)),
{
    let marks2 = marks.update(d as int, true);
    let stack2 = stack.push(d);
    assert(stack2[stack.len() as int] == d);
    assert forall|j: int|
        0 <= j < units.len() && #[trigger] marks2[j] && j != skip && !stack2.contains(
            j as usize,
        ) implies consumed_marked(units, marks2, j, units[j].dependencies@.len() as int) by {
        assert(j != d);
        assert(marks[j]);
        if stack.contains(j as usize) {
            let x = choose|x: int| 0 <= x < stack.len() && stack[x] == j as usize;
            assert(stack2[x] == j as usize);
        }
        assert(consumed_marked(units, marks, j, units[j].dependencies@.len() as int));
    }
    assert forall|x: int| 0 <= x < stack2.len() implies #[trigger] stack2[x] < units.len()
        && marks2[stack2[x] as int] by {
        if x < stack.len() {
            assert(stack[x] < units.len() && marks[stack[x] as int]);
        }
    }
}

/// Marks every unit that unit `i` depends on, and puts the newly marked on the stack.
fn mark_consumed(
    units: &[UnitGraphUnit],
    i: usize,
    marks: &mut Vec<bool>,
    stack: &mut Vec<usize>,
    seeds: Ghost<Seq<bool>>,
)
    requires
        i < units@.len(),
        marks_are_reached(units@, seeds@, old(marks)@),
        old(marks)@[i as int],
        explored(units@, old(marks)@, old(stack)@, i as int),
        stacked(units@, old(marks)@, old(stack)@),
    ensures
        marks_are_reached(units@, seeds@, final(marks)@),
        explored(units@, final(marks)@, final(stack)@, -1),
        stacked(units@, final(marks)@, final(stack)@),
        2 * unset(final(marks)@) + final(stack)@.len() <= 2 * unset(old(marks)@) + old(
            stack,
        )@.len(),
{
    let n: usize = units.len();
    let ghost measure = 2 * unset(marks@) + stack@.len();
    let mut k: usize = 0;
    while k < units[i].dependencies.len()
        invariant
            n == units@.len(),
            i < n,
            k <= units@[i as int].dependencies@.len(),
            marks_are_reached(units@, seeds@, marks@),
            marks@[i as int],
            explored(units@, marks@, stack@, i as int),
            stacked(units@, marks@, stack@),
            2 * unset(marks@) + stack@.len() <= measure,
            consumed_marked(units@, marks@, i as int, k as int),
        decreases units@[i as int].dependencies@.len() - k,
    {
        let d: usize = units[i].dependencies[k].index;
        assert(units@[i as int].dependencies@[k as int].index == d);
        if d < n && !marks[d] {
            proof {
                lemma_set_mark(marks@, d as int);
                assert(consumes(units@, i as int, d as int));
                let s = choose|s: int|
                    0 <= s < seeds@.len() && seeds@[s] && #[trigger] unit_graph::is_reached(
                        units@,
                        s,
                        i as int,
                    );
                lemma_reaches_further(units@, s, i as int, d as int);
                assert(reached_from(units@, seeds@, d as int));
                lemma_mark(units@, marks@, stack@, i as int, d);
            }
            marks.set(d, true);
            stack.push(d);
        }
        k += 1;
    }
}

/// Marks the units that the marked units lead to.
pub fn mark_reached(units: &[UnitGraphUnit], seeds: &Vec<bool>) -> (marks: Vec<bool>)
    requires
        seeds@.len() == units@.len(),
    ensures
        marks@.len() == units@.len(),
        forall|j: int|
            0 <= j < units@.len() ==> #[trigger] marks@[j] == reached_from(units@, seeds@, j),
{
    let n: usize = units.len();
    let mut marks: Vec<bool> = Vec::new();
    let mut stack: Vec<usize> = Vec::new();
    let mut i: usize = 0;
    while i < n
        invariant
            i <= n,
            n == seeds@.len(),
            marks@ == seeds@.take(i as int),
            forall|j: int| 0 <= j < i && #[trigger] marks@[j] ==> stack@.contains(j as usize),
            forall|x: int| 0 <= x < stack@.len() ==> #[trigger] stack@[x] < i,
            forall|x: int| 0 <= x < stack@.len() ==> marks@[#[trigger] stack@[x] as int],
        decreases n - i,
    {
        let ghost before = stack@;
        let seed = seeds[i];
        marks.push(seed);
        if seed {
            stack.push(i);
            assert(stack@[before.len() as int] == i);
        }
        proof {
            assert(marks@ =~= seeds@.take(i + 1));
            assert forall|j: int| 0 <= j < i + 1 && #[trigger] marks@[j] implies stack@.contains(
                j as usize,
            ) by {
                if j < i {
                    assert(seeds@.take(i as int)[j]);
                    assert(before.contains(j as usize));
                    let x = choose|x: int| 0 <= x < before.len() && before[x] == j as usize;
                    assert(stack@[x] == j as usize);
                }
            }
            assert forall|x: int| 0 <= x < stack@.len() implies marks@[#[trigger] stack@[x] as int] by {
                if x < before.len() {
                    assert(seeds@.take(i as int)[before[x] as int]);
                }
            }
        }
        i += 1;
    }
    proof {
        assert(marks@ =~= seeds@);
        assert forall|j: int| 0 <= j < n && #[trigger] marks@[j] implies reached_from(
            units@,
            seeds@,
            j,
        ) by {
            lemma_reaches_itself(units@, j);
            assert(seeds@[j]);
        }
    }
    while stack.len() > 0
        invariant
            n == units@.len(),
            marks_are_reached(units@, seeds@, marks@),
            explored(units@, marks@, stack@, -1),
            stacked(units@, marks@, stack@),
        decreases 2 * unset(marks@) + stack@.len(),
    {
        proof {
            lemma_pop(units@, marks@, stack@);
        }
        let ghost full = stack@;
        let top = stack.pop();
        if let Some(i) = top {
            assert(full[full.len() - 1] == i);
            assert(stack@ =~= full.drop_last());
            mark_consumed(units, i, &mut marks, &mut stack, Ghost(seeds@));
        }
    }
    proof {
        let deps = unit_graph::unit_deps(units@);
        assert forall|j: int| 0 <= j < n implies #[trigger] marks@[j] == reached_from(
            units@,
            seeds@,
            j,
        ) by {
            if reached_from(units@, seeds@, j) {
                let s = choose|s: int|
                    0 <= s < seeds@.len() && seeds@[s] && #[trigger] unit_graph::is_reached(
                        units@,
                        s,
                        j,
                    );
                let walk = choose|walk: Seq<int>| #[trigger]
                    layers::is_walk(deps, walk) && walk.first() == s && walk.last() == j;
                lemma_marks_cover(units@, marks@, walk, walk.len() - 1);
            }
        }
    }
    marks
}

} // verus!
