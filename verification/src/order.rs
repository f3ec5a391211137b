//! The order in which names are listed, and sorting by it.
//!
//! Texts are ordered lexicographically by code point; rows of texts are
//! ordered lexicographically by that order.

use vstd::prelude::*;
use crate::text;

verus! {

/// How one value stands to another in an order.
#[derive(Debug, Clone, Copy, PartialEq, Eq, Structural)]
pub enum Rank {
    Before,
    Same,
    After,
}

/// `a` and `b` agree before position `k`, and there `a` has ended or holds the
/// smaller character.
pub open spec fn text_lt_at(a: Seq<char>, b: Seq<char>, k: int) -> bool {
    &&& 0 <= k <= a.len()
    &&& k < b.len()
    &&& forall|i: int| 0 <= i < k ==> a[i] == b[i]
    &&& k < a.len() ==> a[k] < b[k]
}

/// `a` comes strictly before `b`.
pub open spec fn text_lt(a: Seq<char>, b: Seq<char>) -> bool {
    exists|k: int| text_lt_at(a, b, k)
}

/// `a` and `b` agree before position `k`, and there `a` has ended or holds the
/// smaller text.
pub open spec fn row_lt_at(a: Seq<Seq<char>>, b: Seq<Seq<char>>, k: int) -> bool {
    &&& 0 <= k <= a.len()
    &&& k < b.len()
    &&& forall|i: int| 0 <= i < k ==> a[i] == b[i]
    &&& k < a.len() ==> text_lt(a[k], b[k])
}

/// `a` comes strictly before `b`.
pub open spec fn row_lt(a: Seq<Seq<char>>, b: Seq<Seq<char>>) -> bool {
    exists|k: int| row_lt_at(a, b, k)
}

/// No text comes before itself.
pub proof fn lemma_text_lt_irreflexive(a: Seq<char>)
    ensures
        !text_lt(a, a),
{
}

/// The order of texts is transitive.
pub proof fn lemma_text_lt_transitive(a: Seq<char>, b: Seq<char>, c: Seq<char>)
    requires
        text_lt(a, b),
        text_lt(b, c),
    ensures
        text_lt(a, c),
{
    let i = choose|k: int| text_lt_at(a, b, k);
    let j = choose|k: int| text_lt_at(b, c, k);
    let m = if i <= j { i } else { j };
    assert(text_lt_at(a, c, m));
}

/// Of two different texts one comes before the other.
pub proof fn lemma_text_lt_total(a: Seq<char>, b: Seq<char>)
    ensures
        a == b || text_lt(a, b) || text_lt(b, a),
    decreases a.len(),
{
    if a.len() == 0 {
        if b.len() == 0 {
            assert(a =~= b);
        } else {
            assert(text_lt_at(a, b, 0));
        }
    } else if b.len() == 0 {
        assert(text_lt_at(b, a, 0));
    } else if a[0] < b[0] {
        assert(text_lt_at(a, b, 0));
    } else if b[0] < a[0] {
        assert(text_lt_at(b, a, 0));
    } else {
        assert(a[0] == b[0]);
        let x = a.drop_first();
        let y = b.drop_first();
        lemma_text_lt_total(x, y);
        if x == y {
            assert(a =~= seq![a[0]] + x);
            assert(b =~= seq![b[0]] + y);
        } else if text_lt(x, y) {
            let k = choose|k: int| text_lt_at(x, y, k);
            assert forall|i: int| 0 <= i < k + 1 implies a[i] == b[i] by {
                if i > 0 {
                    assert(x[i - 1] == y[i - 1]);
                }
            }
            assert(text_lt_at(a, b, k + 1));
        } else {
            let k = choose|k: int| text_lt_at(y, x, k);
            assert forall|i: int| 0 <= i < k + 1 implies a[i] == b[i] by {
                if i > 0 {
                    assert(y[i - 1] == x[i - 1]);
                }
            }
            assert(text_lt_at(b, a, k + 1));
        }
    }
}

/// Two texts are never each before the other.
pub proof fn lemma_text_lt_asymmetric(a: Seq<char>, b: Seq<char>)
    requires
        text_lt(a, b),
    ensures
        !text_lt(b, a),
        a != b,
{
    if text_lt(b, a) {
        lemma_text_lt_transitive(a, b, a);
    }
}

/// No row comes before itself.
pub proof fn lemma_row_lt_irreflexive(a: Seq<Seq<char>>)
    ensures
        !row_lt(a, a),
{
    if row_lt(a, a) {
        let k = choose|k: int| row_lt_at(a, a, k);
        lemma_text_lt_irreflexive(a[k]);
    }
}

/// The order of rows is transitive.
pub proof fn lemma_row_lt_transitive(a: Seq<Seq<char>>, b: Seq<Seq<char>>, c: Seq<Seq<char>>)
    requires
        row_lt(a, b),
        row_lt(b, c),
    ensures
        row_lt(a, c),
{
    let i = choose|k: int| row_lt_at(a, b, k);
    let j = choose|k: int| row_lt_at(b, c, k);
    let m = if i <= j { i } else { j };
    if i == j && i < a.len() {
        lemma_text_lt_transitive(a[i], b[i], c[i]);
    }
    assert(row_lt_at(a, c, m));
}

/// Of two different rows one comes before the other.
pub proof fn lemma_row_lt_total(a: Seq<Seq<char>>, b: Seq<Seq<char>>)
    ensures
        a == b || row_lt(a, b) || row_lt(b, a),
    decreases a.len(),
{
    if a.len() == 0 {
        if b.len() == 0 {
            assert(a =~= b);
        } else {
            assert(row_lt_at(a, b, 0));
        }
    } else if b.len() == 0 {
        assert(row_lt_at(b, a, 0));
    } else {
        lemma_text_lt_total(a[0], b[0]);
        if text_lt(a[0], b[0]) {
            assert(row_lt_at(a, b, 0));
        } else if text_lt(b[0], a[0]) {
            assert(row_lt_at(b, a, 0));
        } else {
            let x = a.drop_first();
            let y = b.drop_first();
            lemma_row_lt_total(x, y);
            if x == y {
                assert(a =~= seq![a[0]] + x);
                assert(b =~= seq![b[0]] + y);
            } else if row_lt(x, y) {
                let k = choose|k: int| row_lt_at(x, y, k);
                assert forall|i: int| 0 <= i < k + 1 implies a[i] == b[i] by {
                    if i > 0 {
                        assert(x[i - 1] == y[i - 1]);
                    }
                }
                assert(row_lt_at(a, b, k + 1));
            } else {
                let k = choose|k: int| row_lt_at(y, x, k);
                assert forall|i: int| 0 <= i < k + 1 implies a[i] == b[i] by {
                    if i > 0 {
                        assert(y[i - 1] == x[i - 1]);
                    }
                }
                assert(row_lt_at(b, a, k + 1));
            }
        }
    }
}

/// How `a` stands to `b` in the order of texts.
pub fn rank_text(a: &Vec<char>, b: &Vec<char>) -> (r: Rank)
    ensures
        r == Rank::Before <==> text_lt(a@, b@),
        r == Rank::Same <==> a@ == b@,
        r == Rank::After <==> text_lt(b@, a@),
{
    let mut i: usize = 0;
    while i < a.len() && i < b.len()
        invariant
            i <= a@.len(),
            i <= b@.len(),
            forall|j: int| 0 <= j < i ==> a@[j] == b@[j],
        decreases a@.len() - i,
    {
        let x: char = a[i];
        let y: char = b[i];
        if x < y {
            proof {
                assert(text_lt_at(a@, b@, i as int));
                lemma_text_lt_asymmetric(a@, b@);
            }
            return Rank::Before;
        }
        if y < x {
            proof {
                assert(text_lt_at(b@, a@, i as int));
                lemma_text_lt_asymmetric(b@, a@);
            }
            return Rank::After;
        }
        i += 1;
    }
    if i < b.len() {
        proof {
            assert(text_lt_at(a@, b@, i as int));
            lemma_text_lt_asymmetric(a@, b@);
        }
        Rank::Before
    } else if i < a.len() {
        proof {
            assert(text_lt_at(b@, a@, i as int));
            lemma_text_lt_asymmetric(b@, a@);
        }
        Rank::After
    } else {
        proof {
            assert(a@ =~= b@);
            lemma_text_lt_irreflexive(a@);
        }
        Rank::Same
    }
}

/// The texts of a row.
pub open spec fn row_view(row: Seq<Vec<char>>) -> Seq<Seq<char>> {
    row.map_values(|t: Vec<char>| t@)
}

/// How `a` stands to `b` in the order of rows.
pub fn rank_row(a: &Vec<Vec<char>>, b: &Vec<Vec<char>>) -> (r: Rank)
    ensures
        r == Rank::Before <==> row_lt(row_view(a@), row_view(b@)),
        r == Rank::Same <==> row_view(a@) == row_view(b@),
        r == Rank::After <==> row_lt(row_view(b@), row_view(a@)),
{
    let ghost x = row_view(a@);
    let ghost y = row_view(b@);
    proof {
        lemma_row_lt_total(x, y);
        lemma_row_lt_irreflexive(x);
        lemma_row_lt_irreflexive(y);
        if row_lt(x, y) && row_lt(y, x) {
            lemma_row_lt_transitive(x, y, x);
        }
    }
    let mut i: usize = 0;
    while i < a.len() && i < b.len()
        invariant
            i <= a@.len(),
            i <= b@.len(),
            x == row_view(a@),
            y == row_view(b@),
            !(row_lt(x, y) && row_lt(y, x)),
            !row_lt(x, x),
            forall|j: int| 0 <= j < i ==> x[j] == y[j],
        decreases a@.len() - i,
    {
        let r = rank_text(&a[i], &b[i]);
        match r {
            Rank::Before => {
                assert(row_lt_at(x, y, i as int));
                return Rank::Before;
            },
            Rank::After => {
                assert(row_lt_at(y, x, i as int));
                return Rank::After;
            },
            Rank::Same => {},
        }
        i += 1;
    }
    if i < b.len() {
        assert(row_lt_at(x, y, i as int));
        Rank::Before
    } else if i < a.len() {
        assert(row_lt_at(y, x, i as int));
        Rank::After
    } else {
        assert(x =~= y);
        Rank::Same
    }
}

/// The rows of a table.
pub open spec fn table_view(table: Seq<Vec<Vec<char>>>) -> Seq<Seq<Seq<char>>> {
    table.map_values(|r: Vec<Vec<char>>| row_view(r@))
}

/// `u` is listed before `v`: its key is smaller, or the keys are the same and it
/// stands earlier in `xs`.
pub open spec fn listed_before(
    keys: Seq<Seq<Seq<char>>>,
    xs: Seq<usize>,
    u: usize,
    v: usize,
) -> bool {
    ||| row_lt(keys[u as int], keys[v as int])
    ||| keys[u as int] == keys[v as int] && xs.index_of(u) < xs.index_of(v)
}

/// `ys` lists what `xs` lists, by key, and where keys are the same in the order
/// of `xs`.
pub open spec fn stably_sorted(
    keys: Seq<Seq<Seq<char>>>,
    xs: Seq<usize>,
    ys: Seq<usize>,
) -> bool {
    &&& ys.len() == xs.len()
    &&& ys.no_duplicates()
    &&& forall|v: usize| ys.contains(v) <==> xs.contains(v)
    &&& forall|i: int, j: int|
        0 <= i < j < ys.len() ==> listed_before(keys, xs, #[trigger] ys[i], #[trigger] ys[j])
}

/// Where a sequence repeats nothing, each entry stands at the one place that holds it.
pub proof fn lemma_index_of_entry(xs: Seq<usize>, i: int)
    requires
        xs.no_duplicates(),
        0 <= i < xs.len(),
    ensures
        xs.index_of(xs[i]) == i,
{
    let k = xs.index_of(xs[i]);
    assert(xs.contains(xs[i]));
    assert(0 <= k < xs.len() && xs[k] == xs[i]);
}

/// Sorts positions by their keys; positions with the same key keep their order.
pub fn sort_positions(xs: &Vec<usize>, keys: &Vec<Vec<Vec<char>>>) -> (ys: Vec<usize>)
    requires
        xs@.no_duplicates(),
        forall|i: int| 0 <= i < xs@.len() ==> #[trigger] xs@[i] < keys@.len(),
    ensures
        stably_sorted(table_view(keys@), xs@, ys@),
{
    let ghost kv = table_view(keys@);
    let mut ys: Vec<usize> = Vec::new();
    let mut m: usize = 0;
    while m < xs.len()
        invariant
            m <= xs@.len(),
            kv == table_view(keys@),
            xs@.no_duplicates(),
            forall|i: int| 0 <= i < xs@.len() ==> #[trigger] xs@[i] < keys@.len(),
            ys@.len() == m,
            ys@.no_duplicates(),
            forall|v: usize| #[trigger] ys@.contains(v) <==> xs@.take(m as int).contains(v),
            forall|i: int, j: int|
                0 <= i < j < ys@.len() ==> listed_before(
                    kv,
                    xs@,
                    #[trigger] ys@[i],
                    #[trigger] ys@[j],
                ),
        decreases xs@.len() - m,
    {
        let x: usize = xs[m];
        proof {
            assert forall|i: int| 0 <= i < ys@.len() implies (#[trigger] ys@[i]) < keys@.len()
                && xs@.index_of(ys@[i]) < m && ys@[i] != x by {
                assert(ys@.contains(ys@[i]));
                let k = choose|k: int| 0 <= k < m && xs@.take(m as int)[k] == ys@[i];
                assert(xs@[k] == ys@[i]);
                lemma_index_of_entry(xs@, k);
            }
            lemma_index_of_entry(xs@, m as int);
        }
        let mut pos: usize = ys.len();
        while pos > 0 && rank_row(&keys[x], &keys[ys[pos - 1]]) == Rank::Before
            invariant
                pos <= ys@.len(),
                x < keys@.len(),
                kv == table_view(keys@),
                forall|i: int| 0 <= i < ys@.len() ==> (#[trigger] ys@[i]) < keys@.len(),
                forall|i: int|
                    pos <= i < ys@.len() ==> row_lt(kv[x as int], kv[#[trigger] ys@[i] as int]),
            decreases pos,
        {
            pos -= 1;
        }
        let ghost before = ys@;
        ys.insert(pos, x);
        proof {
            assert(ys@ == before.insert(pos as int, x));
            if pos > 0 {
                lemma_row_lt_total(kv[x as int], kv[before[pos - 1] as int]);
            }
            assert forall|i: int| 0 <= i < pos implies listed_before(
                kv,
                xs@,
                #[trigger] before[i],
                x,
            ) by {
                if i < pos - 1 {
                    assert(listed_before(kv, xs@, before[i], before[pos - 1]));
                    if row_lt(kv[before[i] as int], kv[before[pos - 1] as int]) && row_lt(
                        kv[before[pos - 1] as int],
                        kv[x as int],
                    ) {
                        lemma_row_lt_transitive(
                            kv[before[i] as int],
                            kv[before[pos - 1] as int],
                            kv[x as int],
                        );
                    }
                }
            }
            assert forall|i: int, j: int| 0 <= i < j < ys@.len() implies listed_before(
                kv,
                xs@,
                #[trigger] ys@[i],
                #[trigger] ys@[j],
            ) by {
                let a = if i < pos { i } else { i - 1 };
                let b = if j < pos { j } else { j - 1 };
                if i != pos && j != pos {
                    assert(listed_before(kv, xs@, before[a], before[b]));
                } else if j == pos {
                    assert(listed_before(kv, xs@, before[i], x));
                } else {
                    assert(row_lt(kv[x as int], kv[before[b] as int]));
                }
            }
            assert forall|i: int, j: int| 0 <= i < j < ys@.len() implies ys@[i] != ys@[j] by {
                if ys@[i] == ys@[j] {
                    assert(listed_before(kv, xs@, ys@[i], ys@[j]));
                    lemma_row_lt_irreflexive(kv[ys@[i] as int]);
                }
            }
            assert(xs@.take(m + 1) =~= xs@.take(m as int).push(x));
            assert forall|v: usize| #[trigger] ys@.contains(v) <==> xs@.take(m + 1).contains(v) by {
                if ys@.contains(v) {
                    let k = choose|k: int| 0 <= k < ys@.len() && ys@[k] == v;
                    if k == pos {
                        assert(xs@.take(m + 1)[m as int] == v);
                    } else {
                        let a = if k < pos { k } else { k - 1 };
                        assert(before[a] == v);
                        assert(before.contains(v));
                        let q = choose|q: int| 0 <= q < m && xs@.take(m as int)[q] == v;
                        assert(xs@.take(m + 1)[q] == v);
                    }
                }
                if xs@.take(m + 1).contains(v) {
                    let upto = xs@.take(m + 1);
                    let q = choose|q: int| 0 <= q < upto.len() && upto[q] == v;
                    if q == m {
                        assert(ys@[pos as int] == v);
                    } else {
                        assert(xs@.take(m as int)[q] == v);
                        assert(before.contains(v));
                        let a = choose|a: int| 0 <= a < before.len() && before[a] == v;
                        let k = if a < pos { a } else { a + 1 };
                        assert(ys@[k] == v);
                    }
                }
            }
        }
        m += 1;
    }
    assert(xs@.take(xs@.len() as int) =~= xs@);
    ys
}

// ---------------------------------------------------------------------------
// Ascending lists of names
// ---------------------------------------------------------------------------

/// Each text comes strictly before those that follow it.
pub open spec fn ascending(ts: Seq<Seq<char>>) -> bool {
    forall|i: int, j: int|
        0 <= i < j < ts.len() ==> text_lt(#[trigger] ts[i], #[trigger] ts[j])
}

/// Adds `t` to an ascending list, unless it is there already.
pub fn insert_ascending(names: &mut Vec<String>, t: &str)
    requires
        ascending(text::texts(old(names)@)),
    ensures
        ascending(text::texts(final(names)@)),
        forall|x: Seq<char>| #[trigger]
            text::texts(final(names)@).contains(x) <==> text::texts(old(names)@).contains(x) || x
                == t@,
{
    let cs = text::chars_of(t);
    let ghost before = text::texts(names@);
    let mut pos: usize = names.len();
    while pos > 0
        invariant
            pos <= names@.len(),
            before == text::texts(names@),
            before == text::texts(old(names)@),
            cs@ == t@,
            ascending(before),
            forall|i: int| pos <= i < before.len() ==> text_lt(t@, #[trigger] before[i]),
        ensures
            pos <= names@.len(),
            before == text::texts(names@),
            forall|i: int| pos <= i < before.len() ==> text_lt(t@, #[trigger] before[i]),
            pos > 0 ==> text_lt(before[pos - 1], t@),
        decreases pos,
    {
        let other = text::chars_of(names[pos - 1].as_str());
        assert(other@ == before[pos - 1]);
        let rank = rank_text(&cs, &other);
        match rank {
            Rank::Same => {
                assert(before.contains(t@));
                return;
            },
            Rank::Before => {
                pos -= 1;
            },
            Rank::After => {
                break;
            },
        }
    }
    names.insert(pos, t.to_owned());
    proof {
        let after = text::texts(names@);
        assert(after =~= before.insert(pos as int, t@));
        assert forall|i: int, j: int| 0 <= i < j < after.len() implies text_lt(
            #[trigger] after[i],
            #[trigger] after[j],
        ) by {
            let a = if i < pos { i } else { i - 1 };
            let b = if j < pos { j } else { j - 1 };
            if i != pos && j != pos {
                assert(text_lt(before[a], before[b]));
            } else if j == pos {
                if i < pos - 1 {
                    assert(text_lt(before[i], before[pos - 1]));
                    lemma_text_lt_transitive(before[i], before[pos - 1], t@);
                }
            } else {
                assert(text_lt(t@, before[b]));
            }
        }
        assert forall|x: Seq<char>| #[trigger] after.contains(x) <==> before.contains(x) || x
            == t@ by {
            if after.contains(x) {
                let k = choose|k: int| 0 <= k < after.len() && after[k] == x;
                if k != pos {
                    let a = if k < pos { k } else { k - 1 };
                    assert(before[a] == x);
                }
            }
            if before.contains(x) {
                let a = choose|a: int| 0 <= a < before.len() && before[a] == x;
                let k = if a < pos { a } else { a + 1 };
                assert(after[k] == x);
            }
            if x == t@ {
                assert(after[pos as int] == x);
            }
        }
    }
}

} // verus!
