//! The order in which queued units generate code: each as soon as all that it
//! depends on has finished, and no more at once than allowed.

use vstd::prelude::*;
use vstd::string::StringExecFns;
use crate::{layers, text, waves};

verus! {

/// What a unit waits for: of the units that it depends on, those that run. A unit
/// that does not run counts as done from the start and waits for nothing.
pub open spec fn run_deps(deps: Seq<Set<int>>, runnable: Seq<bool>) -> Seq<Set<int>> {
    Seq::new(
        deps.len(),
        |v: int|
            vstd::set_lib::set_int_range(0, deps.len() as int).filter(
                |d: int| runnable[v] && runnable[d] && deps[v].contains(d),
            ),
    )
}

/// The units that run.
pub open spec fn runnable_set(runnable: Seq<bool>) -> Set<int> {
    vstd::set_lib::set_int_range(0, runnable.len() as int).filter(|v: int| runnable[v])
}

pub open spec fn incomplete_message(done: nat, total: nat) -> Seq<char> {
    "DAG executor: "@ + text::decimal(done) + "/"@ + text::decimal(total)
        + " completed (dependency cycle?)"@
}

/// Units that are waiting, ready, running and finished.
pub struct Codegen {
    /// For each unit, the units that wait for it.
    dependents: Vec<Vec<usize>>,
    /// For each unit that runs, how many units it still waits for.
    waiting: Vec<usize>,
    runnable: Vec<bool>,
    /// The units that can start, the first to start first.
    ready: Vec<usize>,
    /// How many units are running.
    running: usize,
    /// How many units have finished.
    done: usize,
    /// How many units run in all.
    total: usize,
    /// How many units may run at once.
    width: usize,
    /// Why a unit failed, if one has.
    failure: Option<String>,
    waits_for: Ghost<Seq<Set<int>>>,
    started: Ghost<Set<int>>,
    finished: Ghost<Set<int>>,
}

impl Codegen {
    /// What each unit waits for.
    pub closed spec fn waits_for(self) -> Seq<Set<int>> {
        self.waits_for@
    }

    /// Which units run.
    pub closed spec fn runnable(self) -> Seq<bool> {
        self.runnable@
    }

    /// The units that can start, the first to start first.
    pub closed spec fn ready(self) -> Seq<usize> {
        self.ready@
    }

    /// The units that have started.
    pub closed spec fn started(self) -> Set<int> {
        self.started@
    }

    /// The units that have finished.
    pub closed spec fn finished(self) -> Set<int> {
        self.finished@
    }

    /// How many units may run at once.
    pub closed spec fn width(self) -> nat {
        self.width as nat
    }

    /// Why a unit failed, if one has.
    pub closed spec fn failure(self) -> Option<Seq<char>> {
        text::optional(self.failure)
    }

    /// Unit `v` can start: all that it waits for has finished, and nothing has failed.
    pub open spec fn can_start(self, v: int) -> bool {
        &&& self.failure() is None
        &&& 0 <= v < self.runnable().len()
        &&& self.runnable()[v]
        &&& self.waits_for()[v].subset_of(self.finished())
        &&& !self.started().contains(v)
    }

    /// What holds between any two events.
    pub closed spec fn wf(self) -> bool {
        let n = self.runnable@.len();
        let deps = self.waits_for@;
        &&& n <= usize::MAX
        &&& self.dependents@.len() == n
        &&& self.waiting@.len() == n
        &&& deps.len() == n
        &&& self.width > 0
        &&& forall|v: int, d: int|
            0 <= v < n && #[trigger] deps[v].contains(d) ==> 0 <= d < n && self.runnable@[v]
                && self.runnable@[d]
        &&& forall|v: int| 0 <= v < n ==> (#[trigger] deps[v]).finite()
        &&& forall|d: int| 0 <= d < n ==> layers::rising((#[trigger] self.dependents@[d])@)
        &&& forall|d: int, v: usize|
            0 <= d < n && #[trigger] self.dependents@[d]@.contains(v) ==> v < n
        &&& forall|d: int, v: usize|
            #![trigger self.dependents@[d]@.contains(v)]
            #![trigger deps[v as int].contains(d)]
            0 <= d < n && v < n && self.runnable@[d] && self.runnable@[v as int] ==> (
            self.dependents@[d]@.contains(v) <==> deps[v as int].contains(d))
        &&& forall|v: int|
            0 <= v < n && self.runnable@[v] ==> (#[trigger] self.waiting@[v]) as nat
                == deps[v].difference(self.finished@).len()
        &&& self.ready@.no_duplicates()
        &&& forall|v: usize| #[trigger] self.ready@.contains(v) <==> self.can_start(v as int)
        &&& self.finished@.subset_of(self.started@)
        &&& self.started@.subset_of(runnable_set(self.runnable@))
        &&& forall|v: int| #[trigger]
            self.started@.contains(v) ==> deps[v].subset_of(self.finished@)
        &&& forall|v: int| #[trigger]
            self.started@.contains(v) ==> exists|k: nat| layers::settled(deps, v, k)
        &&& self.running as nat == self.started@.difference(self.finished@).len()
        &&& self.running <= self.width
        &&& self.done as nat == self.finished@.len()
        &&& self.total as nat == runnable_set(self.runnable@).len()
    }

    /// Some unit has started and not finished.
    pub open spec fn is_running(self, v: int) -> bool {
        self.started().contains(v) && !self.finished().contains(v)
    }

    /// Nothing runs and nothing can start.
    pub open spec fn is_idle(self) -> bool {
        self.started() == self.finished() && self.ready().len() == 0
    }

    /// A unit starts only after all that it waits for has finished.
    pub proof fn law_units_wait_for_their_dependencies(self, v: int, d: int)
        requires
            self.wf(),
            self.started().contains(v),
            self.waits_for()[v].contains(d),
        ensures
            self.finished().contains(d),
    {
    }

    /// A unit is ready as soon as all that it waits for has finished.
    pub proof fn law_units_are_ready_when_they_can_start(self, v: usize)
        requires
            self.wf(),
        ensures
            self.ready().contains(v) <==> self.can_start(v as int),
    {
    }

    /// No more units run at once than allowed.
    pub proof fn law_no_more_run_at_once_than_allowed(self)
        requires
            self.wf(),
        ensures
            self.started().difference(self.finished()).len() <= self.width(),
    {
    }

    /// After a failure nothing can start, so nothing starts.
    pub proof fn law_nothing_starts_after_a_failure(self, v: int)
        requires
            self.wf(),
            self.failure() is Some,
        ensures
            self.ready().len() == 0,
            !self.can_start(v),
    {
        if self.ready().len() > 0 {
            assert(self.ready@.contains(self.ready@[0]));
        }
    }

    /// What waits for a unit, directly or through others, has not started before that
    /// unit has finished: it never starts if the unit fails.
    pub proof fn law_nothing_starts_before_what_it_waits_for(self, walk: Seq<int>)
        requires
            self.wf(),
            layers::is_walk(self.waits_for(), walk),
            walk.len() > 1,
            !self.finished().contains(walk.last()),
        ensures
            !self.started().contains(walk.first()),
        decreases walk.len(),
    {
        let deps = self.waits_for@;
        assert(deps[walk[0]].contains(walk[0int + 1]));
        if self.started@.contains(walk.first()) {
            assert(self.finished@.contains(walk[1]));
            if walk.len() > 2 {
                let rest = walk.drop_first();
                assert forall|i: int| 0 <= i < rest.len() - 1 implies (
                #[trigger] deps[rest[i]]).contains(rest[i + 1]) by {
                    assert(deps[walk[i + 1]].contains(walk[i + 1 + 1]));
                }
                assert(rest.last() == walk.last());
                self.law_nothing_starts_before_what_it_waits_for(rest);
                assert(self.started@.contains(rest.first()));
            }
        }
    }

    /// Units that do not run never start.
    pub proof fn law_only_runnable_units_start(self, v: int)
        requires
            self.wf(),
            self.started().contains(v),
        ensures
            0 <= v < self.runnable().len(),
            self.runnable()[v],
    {
        assert(runnable_set(self.runnable@).contains(v));
    }

    /// Of the first `k` units that unit `v` depends on, those that it waits for.
    spec fn counted(deps: Seq<Seq<usize>>, runnable: Seq<bool>, v: int, k: int) -> Set<int> {
        vstd::set_lib::set_int_range(0, deps.len() as int).filter(
            |d: int| runnable[v] && runnable[d] && deps[v].take(k).contains(d as usize),
        )
    }

    /// Counts the units that unit `v` waits for.
    fn count_waits(
        list: &Vec<usize>,
        runnable: &Vec<bool>,
        deps: Ghost<Seq<Seq<usize>>>,
        v: usize,
    ) -> (r: usize)
        requires
            v < deps@.len() == runnable@.len(),
            deps@[v as int] == list@,
            list@.no_duplicates(),
            layers::lists_in_range(deps@),
            runnable@[v as int],
            runnable@.len() <= usize::MAX,
        ensures
            r as nat == run_deps(layers::sets_of(deps@), runnable@)[v as int].len(),
    {
        let ghost dv = deps@;
        let ghost n = dv.len();
        let count: usize = list.len();
        let mut r: usize = 0;
        let mut k: usize = 0;
        proof {
            vstd::set_lib::lemma_int_range(0, n as int);
            assert(Self::counted(dv, runnable@, v as int, 0) =~= Set::<int>::empty());
        }
        while k < count
            invariant
                k <= count,
                count == list@.len(),
                dv.len() == n,
                n == runnable@.len(),
                n <= usize::MAX,
                v < n,
                dv[v as int] == list@,
                list@.no_duplicates(),
                layers::lists_in_range(dv),
                runnable@[v as int],
                r <= k,
                r as nat == Self::counted(dv, runnable@, v as int, k as int).len(),
                Self::counted(dv, runnable@, v as int, k as int).finite(),
            decreases count - k,
        {
            let d: usize = list[k];
            let ghost some = Self::counted(dv, runnable@, v as int, k as int);
            let ghost more = Self::counted(dv, runnable@, v as int, k + 1);
            proof {
                assert(dv[v as int][k as int] == d);
                assert(d < n);
                let upto = list@.take(k as int);
                let next = list@.take(k + 1);
                assert(!upto.contains(d)) by {
                    if upto.contains(d) {
                        let j = choose|j: int| 0 <= j < upto.len() && upto[j] == d;
                        assert(list@[j] == list@[k as int]);
                    }
                }
                assert forall|x: usize| #[trigger] next.contains(x) <==> upto.contains(x) || x == d by {
                    if upto.contains(x) {
                        let j = choose|j: int| 0 <= j < upto.len() && upto[j] == x;
                        assert(next[j] == x);
                    }
                    assert(next[k as int] == d);
                    if next.contains(x) && x != d {
                        let j = choose|j: int| 0 <= j < next.len() && next[j] == x;
                        assert(upto[j] == x);
                    }
                }
                if runnable@[d as int] {
                    assert(more =~= some.insert(d as int));
                    assert(!some.contains(d as int));
                } else {
                    assert(more =~= some);
                }
            }
            if runnable[d] {
                r += 1;
            }
            k += 1;
        }
        proof {
            assert(list@.take(k as int) =~= list@);
            let sets = layers::sets_of(dv);
            assert(run_deps(sets, runnable@)[v as int] =~= Self::counted(
                dv,
                runnable@,
                v as int,
                k as int,
            ));
        }
        r
    }

    /// Lists for each unit the units that depend on it.
    fn transpose(deps: &Vec<Vec<usize>>) -> (r: Vec<Vec<usize>>)
        requires
            layers::lists_in_range(layers::lists(deps@)),
            forall|v: int| 0 <= v < deps@.len() ==> (#[trigger] deps@[v])@.no_duplicates(),
        ensures
            r@.len() == deps@.len(),
            forall|d: int| 0 <= d < r@.len() ==> layers::rising((#[trigger] r@[d])@),
            forall|d: int, v: usize|
                0 <= d < r@.len() ==> (#[trigger] r@[d]@.contains(v) <==> v < deps@.len()
                    && deps@[v as int]@.contains(d as usize)),
    {
        let n: usize = deps.len();
        let mut r: Vec<Vec<usize>> = Vec::new();
        let mut i: usize = 0;
        while i < n
            invariant
                i <= n,
                r@.len() == i,
                forall|d: int| 0 <= d < i ==> (#[trigger] r@[d])@ == Seq::<usize>::empty(),
            decreases n - i,
        {
            r.push(Vec::new());
            i += 1;
        }
        i = 0;
        while i < n
            invariant
                i <= n,
                n == deps@.len(),
                r@.len() == n,
                layers::lists_in_range(layers::lists(deps@)),
                forall|v: int| 0 <= v < deps@.len() ==> (#[trigger] deps@[v])@.no_duplicates(),
                forall|d: int| 0 <= d < n ==> layers::rising((#[trigger] r@[d])@),
                forall|d: int, v: usize|
                    0 <= d < n ==> (#[trigger] r@[d]@.contains(v) <==> v < i
                        && deps@[v as int]@.contains(d as usize)),
            decreases n - i,
        {
            let count: usize = deps[i].len();
            let ghost list = deps@[i as int]@;
            let mut k: usize = 0;
            while k < count
                invariant
                    k <= count,
                    i < n,
                    n == deps@.len(),
                    r@.len() == n,
                    list == deps@[i as int]@,
                    count == list.len(),
                    list.no_duplicates(),
                    layers::lists_in_range(layers::lists(deps@)),
                    forall|d: int| 0 <= d < n ==> layers::rising((#[trigger] r@[d])@),
                    forall|d: int, v: usize|
                        0 <= d < n ==> (#[trigger] r@[d]@.contains(v) <==> (v < i
                            && deps@[v as int]@.contains(d as usize)) || (v == i && list.take(
                            k as int,
                        ).contains(d as usize))),
                decreases count - k,
            {
                let d: usize = deps[i][k];
                let ghost before = r@;
                let ghost upto = list.take(k as int);
                let ghost next = list.take(k + 1);
                proof {
                    assert(layers::lists(deps@)[i as int][k as int] == d);
                    assert(d < n);
                    assert(!upto.contains(d)) by {
                        if upto.contains(d) {
                            let j = choose|j: int| 0 <= j < upto.len() && upto[j] == d;
                            assert(list[j] == list[k as int]);
                        }
                    }
                    assert forall|x: usize| #[trigger] next.contains(x) <==> upto.contains(x) || x
                        == d by {
                        if upto.contains(x) {
                            let j = choose|j: int| 0 <= j < upto.len() && upto[j] == x;
                            assert(next[j] == x);
                        }
                        assert(next[k as int] == d);
                        if next.contains(x) && x != d {
                            let j = choose|j: int| 0 <= j < next.len() && next[j] == x;
                            assert(upto[j] == x);
                        }
                    }
                }
                r[d].push(i);
                proof {
                    let was = before[d as int]@;
                    let is = r@[d as int]@;
                    assert(is == was.push(i));
                    assert forall|a: int, b: int| 0 <= a < b < is.len() implies #[trigger] is[a]
                        < #[trigger] is[b] by {
                        if b == was.len() {
                            assert(before[d as int]@.contains(was[a]));
                        }
                    }
                    assert forall|x: int, v: usize| 0 <= x < n implies (#[trigger] r@[x]@.contains(v)
                        <==> (v < i && deps@[v as int]@.contains(x as usize)) || (v == i
                        && next.contains(x as usize))) by {
                        assert(before[x]@.contains(v) <==> (v < i && deps@[v as int]@.contains(
                            x as usize,
                        )) || (v == i && upto.contains(x as usize)));
                        if x == d {
                            if was.contains(v) {
                                let j = choose|j: int| 0 <= j < was.len() && was[j] == v;
                                assert(is[j] == v);
                            }
                            assert(is[was.len() as int] == i);
                            if is.contains(v) && v != i {
                                let j = choose|j: int| 0 <= j < is.len() && is[j] == v;
                                assert(was[j] == v);
                            }
                        } else {
                            assert(r@[x] == before[x]);
                        }
                    }
                }
                k += 1;
            }
            proof {
                assert(list.take(k as int) =~= list);
                assert forall|d: int, v: usize| 0 <= d < n implies (#[trigger] r@[d]@.contains(v)
                    <==> v < i + 1 && deps@[v as int]@.contains(d as usize)) by {}
            }
            i += 1;
        }
        r
    }

    /// Sets up the units: `deps` lists what each depends on, `runnable` tells which of
    /// them run, and `jobs` how many may run at once.
    pub fn new(deps: &Vec<Vec<usize>>, runnable: Vec<bool>, jobs: usize) -> (r: Self)
        requires
            layers::lists_in_range(layers::lists(deps@)),
            forall|v: int| 0 <= v < deps@.len() ==> (#[trigger] deps@[v])@.no_duplicates(),
            runnable@.len() == deps@.len(),
        ensures
            r.wf(),
            r.waits_for() == run_deps(layers::sets_of(layers::lists(deps@)), runnable@),
            r.runnable() == runnable@,
            r.width() == waves::width_of(jobs as nat),
            r.started() == Set::<int>::empty(),
            r.finished() == Set::<int>::empty(),
            r.failure() is None,
            layers::rising(r.ready()),
            forall|v: usize| #[trigger] r.ready().contains(v) <==> r.can_start(v as int),
    {
        let n: usize = runnable.len();
        let ghost dv = layers::lists(deps@);
        let ghost sets = run_deps(layers::sets_of(dv), runnable@);
        let dependents = Self::transpose(deps);
        let mut waiting: Vec<usize> = Vec::new();
        let mut ready: Vec<usize> = Vec::new();
        let mut total: usize = 0;
        let mut v: usize = 0;
        proof {
            vstd::set_lib::lemma_int_range(0, n as int);
            assert(vstd::set_lib::set_int_range(0, 0).filter(|x: int| runnable@[x]) =~= Set::<
                int,
            >::empty());
        }
        while v < n
            invariant
                v <= n,
                n == deps@.len(),
                n == runnable@.len(),
                dv == layers::lists(deps@),
                layers::lists_in_range(dv),
                sets == run_deps(layers::sets_of(dv), runnable@),
                forall|v: int| 0 <= v < deps@.len() ==> (#[trigger] deps@[v])@.no_duplicates(),
                waiting@.len() == v,
                forall|x: int|
                    0 <= x < v && runnable@[x] ==> (#[trigger] waiting@[x]) as nat == sets[x].len(),
                layers::rising(ready@),
                forall|x: usize| #[trigger]
                    ready@.contains(x) <==> x < v && runnable@[x as int] && sets[x as int].len()
                        == 0,
                total <= v,
                total as nat == vstd::set_lib::set_int_range(0, v as int).filter(
                    |x: int| runnable@[x],
                ).len(),
                vstd::set_lib::set_int_range(0, v as int).filter(|x: int| runnable@[x]).finite(),
            decreases n - v,
        {
            let ghost some = vstd::set_lib::set_int_range(0, v as int).filter(
                |x: int| runnable@[x],
            );
            let ghost more = vstd::set_lib::set_int_range(0, v + 1).filter(|x: int| runnable@[x]);
            let ghost ready0 = ready@;
            if runnable[v] {
                assert(dv[v as int] == deps@[v as int]@);
                let w = Self::count_waits(&deps[v], &runnable, Ghost(dv), v);
                waiting.push(w);
                total += 1;
                if w == 0 {
                    ready.push(v);
                }
                assert(more =~= some.insert(v as int));
                assert(!some.contains(v as int));
            } else {
                waiting.push(0);
                assert(more =~= some);
            }
            proof {
                assert forall|x: usize| #[trigger] ready@.contains(x) <==> x < v + 1
                    && runnable@[x as int] && sets[x as int].len() == 0 by {
                    assert(ready0.contains(x) <==> x < v && runnable@[x as int]
                        && sets[x as int].len() == 0);
                    if ready0.contains(x) {
                        let j = choose|j: int| 0 <= j < ready0.len() && ready0[j] == x;
                        assert(ready@[j] == x);
                    }
                    if ready@.len() > ready0.len() {
                        assert(ready@[ready0.len() as int] == v);
                    }
                    if ready@.contains(x) && x != v {
                        let j = choose|j: int| 0 <= j < ready@.len() && ready@[j] == x;
                        assert(ready0[j] == x);
                    }
                }
                assert forall|a: int, b: int| 0 <= a < b < ready@.len() implies #[trigger] ready@[a]
                    < #[trigger] ready@[b] by {
                    if b == ready0.len() {
                        assert(ready0.contains(ready0[a]));
                    }
                }
            }
            v += 1;
        }
        let width: usize = if jobs == 0 {
            1
        } else {
            jobs
        };
        let r = Codegen {
            dependents,
            waiting,
            runnable,
            ready,
            running: 0,
            done: 0,
            total,
            width,
            failure: None,
            waits_for: Ghost(sets),
            started: Ghost(Set::empty()),
            finished: Ghost(Set::empty()),
        };
        proof {
            let none = Set::<int>::empty();
            assert forall|x: int| 0 <= x < n implies (#[trigger] sets[x]).finite() by {
                vstd::set_lib::lemma_int_range(0, n as int);
                vstd::set_lib::lemma_len_subset(
                    sets[x],
                    vstd::set_lib::set_int_range(0, n as int),
                );
            }
            assert forall|x: int| 0 <= x < n implies #[trigger] sets[x].difference(none) == sets[x] by {
                assert(sets[x].difference(none) =~= sets[x]);
            }
            assert forall|x: usize| #[trigger] r.ready@.contains(x) <==> r.can_start(x as int) by {
                if x < n {
                    if sets[x as int].len() == 0 {
                        assert(sets[x as int] =~= none);
                    } else if sets[x as int].subset_of(none) {
                        assert(sets[x as int] =~= none);
                    }
                }
            }
            assert forall|d: int, x: usize|
                0 <= d < n && x < n && runnable@[d] && runnable@[x as int] implies (
            #[trigger] r.dependents@[d]@.contains(x) <==> sets[x as int].contains(d)) by {
                assert(dv[x as int] == deps@[x as int]@);
            }
            assert(none.difference(none) =~= none);
            assert(r.ready@.no_duplicates());
            assert(vstd::set_lib::set_int_range(0, n as int).filter(|x: int| runnable@[x])
                =~= runnable_set(runnable@));
        }
        r
    }

    /// The next unit to start, if one can and may.
    pub fn next_ready(&mut self) -> (r: Option<usize>)
        requires
            old(self).wf(),
        ensures
            final(self).wf(),
            final(self).waits_for() == old(self).waits_for(),
            final(self).runnable() == old(self).runnable(),
            final(self).width() == old(self).width(),
            final(self).finished() == old(self).finished(),
            final(self).failure() == old(self).failure(),
            match r {
                Some(v) => {
                    &&& old(self).ready().len() > 0
                    &&& v == old(self).ready()[0]
                    &&& old(self).can_start(v as int)
                    &&& final(self).ready() == old(self).ready().drop_first()
                    &&& final(self).started() == old(self).started().insert(v as int)
                },
                None => {
                    &&& *final(self) == *old(self)
                    &&& old(self).ready().len() == 0 || old(self).started().difference(
                        old(self).finished(),
                    ).len() == old(self).width()
                },
            },
    {
        if self.ready.len() == 0 || self.running == self.width {
            return None;
        }
        let ghost before = *self;
        let v: usize = self.ready[0];
        let ghost rounds = layers::lemma_rounds_suffice(self.waits_for@);
        proof {
            assert(self.ready@.contains(v));
            assert(self.can_start(v as int));
            assert(self.started@.finite()) by {
                vstd::set_lib::lemma_int_range(0, self.runnable@.len() as int);
                vstd::set_lib::lemma_len_subset(self.started@, runnable_set(self.runnable@));
            }
            let deps = self.waits_for@;
            assert forall|d: int| #[trigger] deps[v as int].contains(d) implies layers::settled(
                deps,
                d,
                rounds,
            ) by {
                assert(self.finished@.contains(d));
                assert(self.started@.contains(d));
                let k = choose|k: nat| layers::settled(deps, d, k);
                assert(layers::settled(deps, d, k));
            }
            assert(layers::settled(deps, v as int, rounds + 1));
            assert(self.started@.insert(v as int).difference(self.finished@)
                =~= self.started@.difference(self.finished@).insert(v as int));
        }
        let _ = self.ready.remove(0);
        self.running = self.running + 1;
        self.started = Ghost(self.started@.insert(v as int));
        proof {
            assert(self.ready@ =~= before.ready@.drop_first());
            assert forall|x: usize| #[trigger] self.ready@.contains(x) <==> self.can_start(
                x as int,
            ) by {
                assert(before.ready@.contains(x) <==> before.can_start(x as int));
                if self.ready@.contains(x) {
                    let i = choose|i: int| 0 <= i < self.ready@.len() && self.ready@[i] == x;
                    assert(before.ready@[i + 1] == x);
                    assert(before.ready@[0] != before.ready@[i + 1]);
                }
                if before.ready@.contains(x) && x != v {
                    let i = choose|i: int| 0 <= i < before.ready@.len() && before.ready@[i] == x;
                    assert(self.ready@[i - 1] == x);
                }
            }
            assert(self.ready@.no_duplicates());
            assert forall|x: int| #[trigger] self.started@.contains(x) implies (exists|k: nat|
                layers::settled(self.waits_for@, x, k)) && self.waits_for@[x].subset_of(
                self.finished@,
            ) by {
                if x == v {
                    assert(layers::settled(self.waits_for@, x, rounds + 1));
                } else {
                    assert(before.started@.contains(x));
                }
            }
            assert(self.running as nat == self.started@.difference(self.finished@).len());
            assert(self.started@.subset_of(runnable_set(self.runnable@)));
        }
        Some(v)
    }

    /// Unit `v` waits for unit `i` and for nothing else that has not finished.
    pub open spec fn is_released_by(self, v: int, i: int) -> bool {
        &&& 0 <= v < self.runnable().len()
        &&& self.waits_for()[v].contains(i)
        &&& self.waits_for()[v].subset_of(self.finished().insert(i))
    }

    /// Unit `i` has finished. The units that waited for it alone can start, after
    /// those that could before, in the order of their numbers.
    pub fn complete(&mut self, i: usize)
        requires
            old(self).wf(),
            old(self).is_running(i as int),
            old(self).failure() is None,
        ensures
            final(self).wf(),
            final(self).waits_for() == old(self).waits_for(),
            final(self).runnable() == old(self).runnable(),
            final(self).width() == old(self).width(),
            final(self).started() == old(self).started(),
            final(self).finished() == old(self).finished().insert(i as int),
            final(self).failure() is None,
            exists|new: Seq<usize>| #[trigger]
                layers::rising(new) && final(self).ready() == old(self).ready() + new && forall|
                    v: usize,
                | #[trigger]
                    new.contains(v) <==> old(self).is_released_by(v as int, i as int),
    {
        let ghost before = *self;
        let ghost n = self.runnable@.len();
        let ghost deps = self.waits_for@;
        let ghost fin = self.finished@;
        let ghost ii = i as int;
        let ghost mut new: Seq<usize> = Seq::empty();
        proof {
            assert(runnable_set(self.runnable@).contains(ii));
            vstd::set_lib::lemma_int_range(0, n as int);
            vstd::set_lib::lemma_len_subset(self.started@, runnable_set(self.runnable@));
            vstd::set_lib::lemma_len_subset(fin, self.started@);
            vstd::set_lib::lemma_len_subset(
                self.started@.difference(fin),
                self.started@,
            );
            vstd::set_lib::lemma_len_subset(fin.insert(ii), runnable_set(self.runnable@));
            assert(self.started@.difference(fin).contains(ii));
            assert(self.started@.difference(fin.insert(ii)) =~= self.started@.difference(fin).remove(
                ii,
            ));
            assert(self.ready@ + new =~= self.ready@);
        }
        let count: usize = self.dependents[i].len();
        let ghost list = self.dependents@[ii]@;
        let mut k: usize = 0;
        while k < count
            invariant
                k <= count,
                count == list.len(),
                n == self.runnable@.len(),
                ii == i,
                i < n,
                before.wf(),
                before.is_running(ii),
                before.failure() is None,
                self.failure == before.failure,
                self.runnable@ == before.runnable@,
                self.dependents@ == before.dependents@,
                self.waits_for@ == before.waits_for@,
                self.started@ == before.started@,
                self.finished@ == before.finished@,
                self.running == before.running,
                self.done == before.done,
                self.total == before.total,
                self.width == before.width,
                deps == before.waits_for@,
                fin == before.finished@,
                list == before.dependents@[ii]@,
                self.waiting@.len() == n,
                forall|v: int|
                    0 <= v < n && before.runnable@[v] ==> (#[trigger] self.waiting@[v]) as nat
                        == if list.take(k as int).contains(v as usize) {
                        deps[v].difference(fin.insert(ii)).len()
                    } else {
                        deps[v].difference(fin).len()
                    },
                self.ready@ == before.ready@ + new,
                layers::rising(new),
                forall|v: usize| #[trigger]
                    new.contains(v) <==> list.take(k as int).contains(v) && before.is_released_by(
                        v as int,
                        ii,
                    ),
            decreases count - k,
        {
            let v: usize = self.dependents[i][k];
            let ghost upto = list.take(k as int);
            let ghost more = list.take(k + 1);
            let ghost waiting0 = self.waiting@;
            let ghost new0 = new;
            proof {
                assert(list[k as int] == v);
                assert(list.contains(v));
                assert(more =~= upto.push(v));
                assert(!upto.contains(v)) by {
                    if upto.contains(v) {
                        let j = choose|j: int| 0 <= j < upto.len() && upto[j] == v;
                        assert(list[j] < list[k as int]);
                    }
                }
                assert forall|x: usize| #[trigger] more.contains(x) <==> upto.contains(x) || x == v by {
                    if upto.contains(x) {
                        let j = choose|j: int| 0 <= j < upto.len() && upto[j] == x;
                        assert(more[j] == x);
                    }
                    assert(more[k as int] == v);
                    if more.contains(x) && x != v {
                        let j = choose|j: int| 0 <= j < more.len() && more[j] == x;
                        assert(upto[j] == x);
                    }
                }
                assert forall|x: usize| #[trigger] new0.contains(x) implies x < v by {
                    let j = choose|j: int| 0 <= j < upto.len() && upto[j] == x;
                    assert(list[j] < list[k as int]);
                }
            }
            if self.runnable[v] {
                let ghost pending = deps[v as int].difference(fin);
                let ghost left = deps[v as int].difference(fin.insert(ii));
                proof {
                    assert(before.dependents@[ii]@.contains(v));
                    assert(deps[v as int].contains(ii));
                    assert(pending.finite()) by {
                        vstd::set_lib::lemma_len_subset(pending, deps[v as int]);
                    }
                    assert(pending.contains(ii));
                    assert(left =~= pending.remove(ii));
                    assert(before.waiting@[v as int] as nat == pending.len());
                    assert(waiting0[v as int] as nat == pending.len());
                }
                let left_over: usize = self.waiting[v] - 1;
                self.waiting.set(v, left_over);
                if left_over == 0 {
                    self.ready.push(v);
                    proof {
                        assert(left.len() == 0);
                        assert(left =~= Set::<int>::empty());
                        assert(deps[v as int].subset_of(fin.insert(ii))) by {
                            assert forall|d: int| deps[v as int].contains(d) implies fin.insert(
                                ii,
                            ).contains(d) by {
                                if !fin.insert(ii).contains(d) {
                                    assert(left.contains(d));
                                }
                            }
                        }
                        new = new0.push(v);
                        assert(self.ready@ =~= before.ready@ + new);
                        assert forall|a: int, b: int| 0 <= a < b < new.len() implies #[trigger] new[a]
                            < #[trigger] new[b] by {
                            if b == new0.len() {
                                assert(new0.contains(new0[a]));
                            }
                        }
                        assert(new[new0.len() as int] == v);
                    }
                } else {
                    proof {
                        assert(!deps[v as int].subset_of(fin.insert(ii))) by {
                            if deps[v as int].subset_of(fin.insert(ii)) {
                                assert(left =~= Set::<int>::empty());
                            }
                        }
                    }
                }
            } else {
                proof {
                    assert(!deps[v as int].contains(ii));
                }
            }
            proof {
                assert forall|x: usize| #[trigger] new.contains(x) <==> more.contains(x)
                    && before.is_released_by(x as int, ii) by {
                    assert(new0.contains(x) <==> upto.contains(x) && before.is_released_by(
                        x as int,
                        ii,
                    ));
                    if new0.contains(x) {
                        let j = choose|j: int| 0 <= j < new0.len() && new0[j] == x;
                        assert(new[j] == x);
                    }
                    if new.contains(x) && x != v {
                        let j = choose|j: int| 0 <= j < new.len() && new[j] == x;
                        assert(new0[j] == x);
                    }
                }
            }
            k += 1;
        }
        self.running = self.running - 1;
        self.done = self.done + 1;
        self.finished = Ghost(fin.insert(ii));
        proof {
            assert(list.take(k as int) =~= list);
            assert forall|v: usize| #[trigger] new.contains(v) <==> before.is_released_by(
                v as int,
                ii,
            ) by {
                if before.is_released_by(v as int, ii) {
                    assert(deps[v as int].contains(ii));
                    assert(before.dependents@[ii]@.contains(v));
                }
            }
            assert forall|v: int| 0 <= v < n && self.runnable@[v] implies (
            #[trigger] self.waiting@[v]) as nat == deps[v].difference(self.finished@).len() by {
                if !list.contains(v as usize) {
                    assert(!deps[v].contains(ii));
                    assert(deps[v].difference(fin.insert(ii)) =~= deps[v].difference(fin));
                }
            }
            assert forall|v: usize| #[trigger] self.ready@.contains(v) <==> self.can_start(
                v as int,
            ) by {
                assert(before.ready@.contains(v) <==> before.can_start(v as int));
                if before.ready@.contains(v) {
                    let j = choose|j: int| 0 <= j < before.ready@.len() && before.ready@[j] == v;
                    assert(self.ready@[j] == v);
                }
                if new.contains(v) {
                    let j = choose|j: int| 0 <= j < new.len() && new[j] == v;
                    assert(self.ready@[before.ready@.len() + j] == v);
                    if before.started@.contains(v as int) {
                        assert(deps[v as int].subset_of(fin));
                    }
                }
                if self.ready@.contains(v) && !before.ready@.contains(v) {
                    let j = choose|j: int| 0 <= j < self.ready@.len() && self.ready@[j] == v;
                    if j < before.ready@.len() {
                        assert(before.ready@[j] == v);
                    } else {
                        assert(new[j - before.ready@.len()] == v);
                    }
                }
                if self.can_start(v as int) && !before.can_start(v as int) {
                    assert(deps[v as int].contains(ii));
                    assert(before.is_released_by(v as int, ii));
                }
            }
            assert(self.ready@.no_duplicates()) by {
                assert forall|a: int, b: int| 0 <= a < b < self.ready@.len() implies self.ready@[a]
                    != self.ready@[b] by {
                    let m = before.ready@.len();
                    if b < m {
                        assert(before.ready@[a] != before.ready@[b]);
                    } else if a >= m {
                        assert(new[a - m] < new[b - m]);
                    } else {
                        assert(before.ready@.contains(before.ready@[a]));
                        assert(new.contains(new[b - m]));
                    }
                }
            }
        }
    }

    /// A unit has failed, for this reason. Nothing starts any more; the first failure
    /// is the outcome.
    pub fn fail(&mut self, why: String)
        requires
            old(self).wf(),
        ensures
            final(self).wf(),
            final(self).waits_for() == old(self).waits_for(),
            final(self).runnable() == old(self).runnable(),
            final(self).width() == old(self).width(),
            final(self).started() == old(self).started(),
            final(self).finished() == old(self).finished(),
            final(self).ready() == Seq::<usize>::empty(),
            final(self).failure() == match old(self).failure() {
                Some(first) => Some(first),
                None => Some(why@),
            },
    {
        if self.failure.is_none() {
            self.failure = Some(why);
        }
        self.ready = Vec::new();
        assert(self.ready@ =~= Seq::<usize>::empty());
    }

    /// How many units are running.
    pub fn running(&self) -> (r: usize)
        requires
            self.wf(),
        ensures
            r as nat == self.started().difference(self.finished()).len(),
            r == 0 <==> self.started() == self.finished(),
    {
        proof {
            vstd::set_lib::lemma_int_range(0, self.runnable@.len() as int);
            vstd::set_lib::lemma_len_subset(self.started@, runnable_set(self.runnable@));
            let inside = self.started@.difference(self.finished@);
            vstd::set_lib::lemma_len_subset(inside, self.started@);
            if inside.len() == 0 {
                assert(inside =~= Set::<int>::empty());
                assert forall|v: int| self.started@.contains(v) implies self.finished@.contains(
                    v,
                ) by {
                    if !self.finished@.contains(v) {
                        assert(inside.contains(v));
                    }
                }
                assert(self.started@ =~= self.finished@);
            } else if self.started@ == self.finished@ {
                assert(inside =~= Set::<int>::empty());
            }
        }
        self.running
    }

    /// Whether nothing runs and nothing can start.
    pub fn idle(&self) -> (r: bool)
        requires
            self.wf(),
        ensures
            r == self.is_idle(),
    {
        let none_running = self.running() == 0;
        none_running && self.ready.len() == 0
    }

    /// Once nothing runs and nothing can start, exactly those units have finished
    /// that run and wait for no cycle.
    proof fn lemma_idle_means_done(self)
        requires
            self.wf(),
            self.is_idle(),
            self.failure() is None,
        ensures
            self.finished() == runnable_set(self.runnable()) <==> !layers::has_cycle(
                self.waits_for(),
            ),
    {
        let deps = self.waits_for@;
        let n = deps.len();
        let rounds = layers::lemma_rounds_suffice(deps);
        layers::lemma_all_settle_iff_acyclic(deps, rounds);
        assert forall|v: int| #[trigger] runnable_set(self.runnable@).contains(v) && layers::settled(
            deps,
            v,
            rounds,
        ) implies self.finished@.contains(v) by {
            self.lemma_settled_is_finished(v, rounds);
        }
        if !layers::has_cycle(deps) {
            assert forall|v: int| runnable_set(self.runnable@).contains(v) implies self.finished@.contains(
                v,
            ) by {
                assert(layers::settled(deps, v, rounds));
            }
            assert(self.finished@ =~= runnable_set(self.runnable@));
        }
        if self.finished@ == runnable_set(self.runnable@) {
            assert forall|v: int| 0 <= v < n implies #[trigger] layers::settled(
                deps,
                v,
                rounds,
            ) by {
                if self.runnable@[v] {
                    assert(self.finished@.contains(v));
                    assert(self.started@.contains(v));
                    let k = choose|k: nat| layers::settled(deps, v, k);
                    assert(layers::settled(deps, v, k));
                } else {
                    assert(layers::settled(deps, v, 1)) by {
                        assert forall|d: int| #[trigger] deps[v].contains(d) implies layers::settled(
                            deps,
                            d,
                            0,
                        ) by {}
                    }
                }
            }
        }
    }

    proof fn lemma_settled_is_finished(self, v: int, k: nat)
        requires
            self.wf(),
            self.is_idle(),
            self.failure() is None,
            runnable_set(self.runnable@).contains(v),
            layers::settled(self.waits_for@, v, k),
        ensures
            self.finished@.contains(v),
        decreases k,
    {
        let deps = self.waits_for@;
        assert forall|d: int| #[trigger] deps[v].contains(d) implies self.finished@.contains(d) by {
            assert(layers::settled(deps, d, (k - 1) as nat));
            assert(runnable_set(self.runnable@).contains(d));
            self.lemma_settled_is_finished(d, (k - 1) as nat);
        }
        if !self.started@.contains(v) {
            assert(self.can_start(v));
            assert(self.ready@.contains(v as usize));
            assert(self.ready@.len() > 0);
        }
    }

    /// The outcome, once a unit has failed, or nothing runs and nothing can start. A
    /// failure is the error; else it is an error if not every unit that runs has
    /// finished, which happens exactly if units wait for one another in a circle.
    pub fn finish(&self) -> (r: Result<(), String>)
        requires
            self.wf(),
            self.failure() is Some || self.is_idle(),
        ensures
            match r {
                Ok(_) => {
                    &&& self.failure() is None
                    &&& self.finished() == runnable_set(self.runnable())
                    &&& !layers::has_cycle(self.waits_for())
                },
                Err(e) => match self.failure() {
                    Some(why) => e@ == why,
                    None => {
                        &&& self.finished() != runnable_set(self.runnable())
                        &&& layers::has_cycle(self.waits_for())
                        &&& e@ == incomplete_message(
                            self.finished().len(),
                            runnable_set(self.runnable()).len(),
                        )
                    },
                },
            },
    {
        match &self.failure {
            Some(why) => {
                return Err(why.as_str().to_owned());
            },
            None => {},
        }
        let n: usize = self.runnable.len();
        proof {
            self.lemma_idle_means_done();
            vstd::set_lib::lemma_int_range(0, n as int);
            let all = runnable_set(self.runnable@);
            vstd::set_lib::lemma_len_subset(self.finished@, all);
            if self.finished@.len() == all.len() {
                vstd::set_lib::lemma_subset_equality(self.finished@, all);
            }
        }
        if self.done < self.total {
            let mut e = "DAG executor: ".to_owned();
            e.append(text::decimal_text(self.done).as_str());
            e.append("/");
            e.append(text::decimal_text(self.total).as_str());
            e.append(" completed (dependency cycle?)");
            return Err(e);
        }
        Ok(())
    }
}

} // verus!
