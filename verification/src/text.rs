//! Text primitives: cutting, searching, trimming, splitting, joining, numbers.
//!
//! A text is modelled by the sequence of its characters.

use vstd::prelude::*;
use vstd::string::StringExecFns;

verus! {

// ---------------------------------------------------------------------------
// Characters
// ---------------------------------------------------------------------------

/// `String::push` appends one character.
pub assume_specification[ String::push ](s: &mut String, c: char)
    ensures
        final(s)@ == old(s)@.push(c),
;

/// The characters of `s`, in order.
pub fn chars_of(s: &str) -> (r: Vec<char>)
    ensures
        r@ == s@,
{
    let mut r: Vec<char> = Vec::new();
    for c in it: s.chars()
        invariant
            r@ == it.seq().take(it.index() as int),
            it.seq() == s@,
    {
        r.push(c);
    }
    assert(r@ == s@);
    r
}

/// The text made of the characters `from..to` of `cs`.
pub fn text_of(cs: &Vec<char>, from: usize, to: usize) -> (r: String)
    requires
        from <= to <= cs@.len(),
    ensures
        r@ == cs@.subrange(from as int, to as int),
{
    let mut r = String::new();
    let mut i: usize = from;
    while i < to
        invariant
            from <= i <= to <= cs@.len(),
            r@ == cs@.subrange(from as int, i as int),
        decreases to - i,
    {
        r.push(cs[i]);
        i += 1;
    }
    r
}

/// Whether two texts are the same.
pub fn same(a: &str, b: &str) -> (r: bool)
    ensures
        r == (a@ == b@),
{
    let x = a.to_owned();
    let y = b.to_owned();
    x == y
}

// ---------------------------------------------------------------------------
// Prefixes, suffixes and parts
// ---------------------------------------------------------------------------

pub open spec fn has_prefix(s: Seq<char>, prefix: Seq<char>) -> bool {
    prefix.len() <= s.len() && s.take(prefix.len() as int) == prefix
}

pub open spec fn has_suffix(s: Seq<char>, suffix: Seq<char>) -> bool {
    suffix.len() <= s.len() && s.skip(s.len() - suffix.len()) == suffix
}

/// `needle` occurs in `s` at position `k`.
pub open spec fn occurs_at(s: Seq<char>, needle: Seq<char>, k: int) -> bool {
    0 <= k <= s.len() - needle.len() && s.subrange(k, k + needle.len()) == needle
}

/// `needle` occurs somewhere in `s`.
pub open spec fn contains_text(s: Seq<char>, needle: Seq<char>) -> bool {
    exists|k: int| occurs_at(s, needle, k)
}

/// Whether the characters of `cs` from `at` on start with `needle`.
fn matches_at(cs: &Vec<char>, needle: &Vec<char>, at: usize) -> (r: bool)
    requires
        at + needle@.len() <= cs@.len(),
    ensures
        r == occurs_at(cs@, needle@, at as int),
{
    let size: usize = cs.len();
    let mut i: usize = 0;
    while i < needle.len()
        invariant
            i <= needle@.len(),
            at + needle@.len() <= cs@.len(),
            size == cs@.len(),
            forall|j: int| 0 <= j < i ==> cs@[at + j] == needle@[j],
        decreases needle@.len() - i,
    {
        if cs[at + i] != needle[i] {
            assert(cs@.subrange(at as int, at + needle@.len())[i as int] != needle@[i as int]);
            return false;
        }
        i += 1;
    }
    assert(cs@.subrange(at as int, at + needle@.len()) =~= needle@);
    true
}

/// Whether `s` starts with `prefix`.
pub fn starts_with(s: &str, prefix: &str) -> (r: bool)
    ensures
        r == has_prefix(s@, prefix@),
{
    let cs = chars_of(s);
    let ps = chars_of(prefix);
    if ps.len() > cs.len() {
        return false;
    }
    assert(cs@.subrange(0, ps@.len() as int) =~= s@.take(prefix@.len() as int));
    matches_at(&cs, &ps, 0)
}

/// What follows `prefix` in `s`, if `s` starts with it.
pub fn strip_prefix(s: &str, prefix: &str) -> (r: Option<String>)
    ensures
        match r {
            Some(rest) => has_prefix(s@, prefix@) && rest@ == s@.skip(prefix@.len() as int),
            None => !has_prefix(s@, prefix@),
        },
{
    if starts_with(s, prefix) {
        let cs = chars_of(s);
        let ps = chars_of(prefix);
        Some(text_of(&cs, ps.len(), cs.len()))
    } else {
        None
    }
}

/// What precedes `suffix` in `s`, if `s` ends with it.
pub fn strip_suffix(s: &str, suffix: &str) -> (r: Option<String>)
    ensures
        match r {
            Some(rest) => has_suffix(s@, suffix@) && rest@ == s@.take(s@.len() - suffix@.len()),
            None => !has_suffix(s@, suffix@),
        },
{
    let cs = chars_of(s);
    let ps = chars_of(suffix);
    if ps.len() > cs.len() {
        return None;
    }
    let at: usize = cs.len() - ps.len();
    assert(cs@.subrange(at as int, at + ps@.len()) =~= s@.skip(s@.len() - suffix@.len()));
    if matches_at(&cs, &ps, at) {
        Some(text_of(&cs, 0, at))
    } else {
        None
    }
}

/// Whether `needle` occurs in `s`.
pub fn contains(s: &str, needle: &str) -> (r: bool)
    ensures
        r == contains_text(s@, needle@),
{
    let cs = chars_of(s);
    let ns = chars_of(needle);
    if ns.len() > cs.len() {
        return false;
    }
    let mut k: usize = 0;
    let last: usize = cs.len() - ns.len();
    while k <= last
        invariant
            cs@ == s@,
            ns@ == needle@,
            last == cs@.len() - ns@.len(),
            last < usize::MAX || k <= last,
            k <= last + 1,
            forall|j: int| 0 <= j < k ==> !occurs_at(s@, needle@, j),
        decreases last + 1 - k,
    {
        if matches_at(&cs, &ns, k) {
            return true;
        }
        if k == last {
            return false;
        }
        k += 1;
    }
    false
}

// ---------------------------------------------------------------------------
// Single characters
// ---------------------------------------------------------------------------

/// `k` is the first position of `c` in `s`.
pub open spec fn first_at(s: Seq<char>, c: char, k: int) -> bool {
    0 <= k < s.len() && s[k] == c && forall|j: int| 0 <= j < k ==> s[j] != c
}

/// `k` is the last position of `c` in `s`.
pub open spec fn last_at(s: Seq<char>, c: char, k: int) -> bool {
    0 <= k < s.len() && s[k] == c && forall|j: int| k < j < s.len() ==> s[j] != c
}

/// The first position of `c`.
pub fn find_char(cs: &Vec<char>, c: char) -> (r: Option<usize>)
    ensures
        match r {
            Some(k) => first_at(cs@, c, k as int),
            None => !cs@.contains(c),
        },
{
    let mut i: usize = 0;
    while i < cs.len()
        invariant
            i <= cs@.len(),
            forall|j: int| 0 <= j < i ==> cs@[j] != c,
        decreases cs@.len() - i,
    {
        if cs[i] == c {
            return Some(i);
        }
        i += 1;
    }
    None
}

/// The last position of `c`.
pub fn rfind_char(cs: &Vec<char>, c: char) -> (r: Option<usize>)
    ensures
        match r {
            Some(k) => last_at(cs@, c, k as int),
            None => !cs@.contains(c),
        },
{
    let mut i: usize = cs.len();
    while i > 0
        invariant
            i <= cs@.len(),
            forall|j: int| i <= j < cs@.len() ==> cs@[j] != c,
        decreases i,
    {
        i -= 1;
        if cs[i] == c {
            return Some(i);
        }
    }
    None
}

/// The part of `s` before its first `c` and the part after it.
pub open spec fn cut_first(s: Seq<char>, c: char) -> Option<(Seq<char>, Seq<char>)>
    decreases s.len(),
{
    if s.len() == 0 {
        None
    } else if s.first() == c {
        Some((Seq::empty(), s.drop_first()))
    } else {
        match cut_first(s.drop_first(), c) {
            Some((a, b)) => Some((seq![s.first()] + a, b)),
            None => None,
        }
    }
}

/// The part of `s` before its last `c` and the part after it.
pub open spec fn cut_last(s: Seq<char>, c: char) -> Option<(Seq<char>, Seq<char>)>
    decreases s.len(),
{
    if s.len() == 0 {
        None
    } else if s.last() == c {
        Some((s.drop_last(), Seq::empty()))
    } else {
        match cut_last(s.drop_last(), c) {
            Some((a, b)) => Some((a, b.push(s.last()))),
            None => None,
        }
    }
}

/// `cut_first` cuts at the first position of `c`.
pub proof fn lemma_cut_first(s: Seq<char>, c: char, k: int)
    requires
        first_at(s, c, k),
    ensures
        cut_first(s, c) == Some((s.take(k), s.skip(k + 1))),
    decreases s.len(),
{
    if k == 0 {
        assert(s.take(0) =~= Seq::<char>::empty());
        assert(s.skip(1) =~= s.drop_first());
    } else {
        let rest = s.drop_first();
        assert(first_at(rest, c, k - 1));
        lemma_cut_first(rest, c, k - 1);
        assert(seq![s.first()] + rest.take(k - 1) =~= s.take(k));
        assert(rest.skip(k) =~= s.skip(k + 1));
    }
}

/// `cut_last` cuts at the last position of `c`.
pub proof fn lemma_cut_last(s: Seq<char>, c: char, k: int)
    requires
        last_at(s, c, k),
    ensures
        cut_last(s, c) == Some((s.take(k), s.skip(k + 1))),
    decreases s.len(),
{
    if k == s.len() - 1 {
        assert(s.take(k) =~= s.drop_last());
        assert(s.skip(k + 1) =~= Seq::<char>::empty());
    } else {
        let rest = s.drop_last();
        assert(last_at(rest, c, k));
        lemma_cut_last(rest, c, k);
        assert(rest.take(k) =~= s.take(k));
        assert(rest.skip(k + 1).push(s.last()) =~= s.skip(k + 1));
    }
}

/// A text without `c` is not cut.
pub proof fn lemma_cut_none(s: Seq<char>, c: char)
    requires
        !s.contains(c),
    ensures
        cut_first(s, c) is None,
        cut_last(s, c) is None,
    decreases s.len(),
{
    if s.len() > 0 {
        assert(s.contains(s.first()));
        assert(s.contains(s.last()));
        assert forall|i: int| 0 <= i < s.len() - 1 implies s.drop_first()[i] != c
            && s.drop_last()[i] != c by {
            assert(s.contains(s[i + 1]));
            assert(s.contains(s[i]));
        }
        lemma_cut_none(s.drop_first(), c);
        lemma_cut_none(s.drop_last(), c);
    }
}

/// What is cut holds no character that was not there before.
pub proof fn lemma_cut_first_keeps(s: Seq<char>, c: char, x: char)
    requires
        !s.contains(x),
    ensures
        match cut_first(s, c) {
            Some((a, b)) => !a.contains(x) && !b.contains(x),
            None => true,
        },
    decreases s.len(),
{
    if s.len() > 0 {
        let rest = s.drop_first();
        assert forall|i: int| 0 <= i < rest.len() implies rest[i] != x by {
            assert(s.contains(s[i + 1]));
        }
        assert(s.contains(s.first()));
        if s.first() != c {
            lemma_cut_first_keeps(rest, c, x);
            match cut_first(rest, c) {
                Some((a, b)) => {
                    let longer = seq![s.first()] + a;
                    assert forall|i: int| 0 <= i < longer.len() implies longer[i] != x by {
                        if i > 0 {
                            assert(a.contains(a[i - 1]));
                        }
                    }
                },
                None => {},
            }
        }
    }
}

/// What is cut holds no character that was not there before.
pub proof fn lemma_cut_last_keeps(s: Seq<char>, c: char, x: char)
    requires
        !s.contains(x),
    ensures
        match cut_last(s, c) {
            Some((a, b)) => !a.contains(x) && !b.contains(x),
            None => true,
        },
    decreases s.len(),
{
    if s.len() > 0 {
        let rest = s.drop_last();
        assert forall|i: int| 0 <= i < rest.len() implies rest[i] != x by {
            assert(s.contains(s[i]));
        }
        assert(s.contains(s.last()));
        if s.last() != c {
            lemma_cut_last_keeps(rest, c, x);
            match cut_last(rest, c) {
                Some((a, b)) => {
                    let longer = b.push(s.last());
                    assert forall|i: int| 0 <= i < longer.len() implies longer[i] != x by {
                        if i < b.len() {
                            assert(b.contains(b[i]));
                        }
                    }
                },
                None => {},
            }
        }
    }
}

/// The views of the two parts of a cut.
pub open spec fn cut_view(r: Option<(String, String)>) -> Option<(Seq<char>, Seq<char>)> {
    match r {
        Some((a, b)) => Some((a@, b@)),
        None => None,
    }
}

/// Cuts `s` at its first `c`.
pub fn cut_at_first(s: &str, c: char) -> (r: Option<(String, String)>)
    ensures
        cut_view(r) == cut_first(s@, c),
{
    let cs = chars_of(s);
    match find_char(&cs, c) {
        Some(k) => {
            proof {
                lemma_cut_first(s@, c, k as int);
                assert(cs@.subrange(0, k as int) =~= s@.take(k as int));
                assert(cs@.subrange(k + 1, cs@.len() as int) =~= s@.skip(k + 1));
            }
            Some((text_of(&cs, 0, k), text_of(&cs, k + 1, cs.len())))
        },
        None => {
            proof {
                lemma_cut_none(s@, c);
            }
            None
        },
    }
}

/// Cuts `s` at its last `c`.
pub fn cut_at_last(s: &str, c: char) -> (r: Option<(String, String)>)
    ensures
        cut_view(r) == cut_last(s@, c),
{
    let cs = chars_of(s);
    match rfind_char(&cs, c) {
        Some(k) => {
            proof {
                lemma_cut_last(s@, c, k as int);
                assert(cs@.subrange(0, k as int) =~= s@.take(k as int));
                assert(cs@.subrange(k + 1, cs@.len() as int) =~= s@.skip(k + 1));
            }
            Some((text_of(&cs, 0, k), text_of(&cs, k + 1, cs.len())))
        },
        None => {
            proof {
                lemma_cut_none(s@, c);
            }
            None
        },
    }
}

/// `s` with every `from` written as `to`.
pub open spec fn replaced(s: Seq<char>, from: char, to: char) -> Seq<char> {
    s.map_values(
        |c: char|
            if c == from {
                to
            } else {
                c
            },
    )
}

/// Writes every `from` in `s` as `to`.
pub fn replace_char(s: &str, from: char, to: char) -> (r: String)
    ensures
        r@ == replaced(s@, from, to),
{
    let cs = chars_of(s);
    let mut r = String::new();
    let mut i: usize = 0;
    while i < cs.len()
        invariant
            i <= cs@.len(),
            r@ == replaced(cs@.take(i as int), from, to),
        decreases cs@.len() - i,
    {
        let c = cs[i];
        if c == from {
            r.push(to);
        } else {
            r.push(c);
        }
        assert(cs@.take(i + 1) =~= cs@.take(i as int).push(c));
        assert(r@ =~= replaced(cs@.take(i + 1), from, to));
        i += 1;
    }
    assert(cs@.take(i as int) =~= s@);
    r
}

// ---------------------------------------------------------------------------
// Trimming
// ---------------------------------------------------------------------------

/// Unicode's `White_Space` property.
pub open spec fn is_white(c: char) -> bool {
    ||| '\u{9}' <= c <= '\u{d}'
    ||| c == '\u{20}'
    ||| c == '\u{85}'
    ||| c == '\u{a0}'
    ||| c == '\u{1680}'
    ||| '\u{2000}' <= c <= '\u{200a}'
    ||| c == '\u{2028}'
    ||| c == '\u{2029}'
    ||| c == '\u{202f}'
    ||| c == '\u{205f}'
    ||| c == '\u{3000}'
}

/// Whether `c` is white space.
pub fn white(c: char) -> (r: bool)
    ensures
        r == is_white(c),
{
    (c >= '\u{9}' && c <= '\u{d}') || c == '\u{20}' || c == '\u{85}' || c == '\u{a0}' || c
        == '\u{1680}' || (c >= '\u{2000}' && c <= '\u{200a}') || c == '\u{2028}' || c == '\u{2029}'
        || c == '\u{202f}' || c == '\u{205f}' || c == '\u{3000}'
}

/// `s` without the white space it starts with.
pub open spec fn trim_front(s: Seq<char>) -> Seq<char>
    decreases s.len(),
{
    if s.len() > 0 && is_white(s.first()) {
        trim_front(s.drop_first())
    } else {
        s
    }
}

/// `s` without the white space it ends with.
pub open spec fn trim_back(s: Seq<char>) -> Seq<char>
    decreases s.len(),
{
    if s.len() > 0 && is_white(s.last()) {
        trim_back(s.drop_last())
    } else {
        s
    }
}

/// `s` without the white space around it.
pub open spec fn trimmed(s: Seq<char>) -> Seq<char> {
    trim_back(trim_front(s))
}

/// Cuts off the white space around `s`.
pub fn trim(s: &str) -> (r: String)
    ensures
        r@ == trimmed(s@),
{
    let cs = chars_of(s);
    let mut from: usize = 0;
    assert(cs@.skip(0) =~= s@);
    while from < cs.len() && white(cs[from])
        invariant
            from <= cs@.len(),
            trim_front(cs@.skip(from as int)) == trim_front(s@),
        decreases cs@.len() - from,
    {
        assert(cs@.skip(from as int).drop_first() =~= cs@.skip(from + 1));
        from += 1;
    }
    let mut to: usize = cs.len();
    assert(cs@.subrange(from as int, to as int) =~= cs@.skip(from as int));
    while to > from && white(cs[to - 1])
        invariant
            from <= to <= cs@.len(),
            trim_back(cs@.subrange(from as int, to as int)) == trimmed(s@),
        decreases to,
    {
        assert(cs@.subrange(from as int, to as int).drop_last() =~= cs@.subrange(
            from as int,
            to - 1,
        ));
        to -= 1;
    }
    text_of(&cs, from, to)
}

/// `s` without the `c`s it ends with.
pub open spec fn without_trailing(s: Seq<char>, c: char) -> Seq<char>
    decreases s.len(),
{
    if s.len() > 0 && s.last() == c {
        without_trailing(s.drop_last(), c)
    } else {
        s
    }
}

/// Cuts off the `c`s at the end of `s`.
pub fn trim_end_char(s: &str, c: char) -> (r: String)
    ensures
        r@ == without_trailing(s@, c),
{
    let cs = chars_of(s);
    let mut to: usize = cs.len();
    assert(cs@.take(to as int) =~= s@);
    while to > 0 && cs[to - 1] == c
        invariant
            to <= cs@.len(),
            without_trailing(cs@.take(to as int), c) == without_trailing(s@, c),
        decreases to,
    {
        assert(cs@.take(to as int).drop_last() =~= cs@.take(to - 1));
        to -= 1;
    }
    assert(cs@.subrange(0, to as int) =~= cs@.take(to as int));
    text_of(&cs, 0, to)
}

// ---------------------------------------------------------------------------
// Splitting and joining
// ---------------------------------------------------------------------------

/// The pieces of `s` between the places where it holds `c`.
pub open spec fn split(s: Seq<char>, c: char) -> Seq<Seq<char>>
    decreases s.len(),
{
    if s.len() == 0 {
        seq![Seq::<char>::empty()]
    } else {
        let head = split(s.drop_last(), c);
        if s.last() == c {
            head.push(Seq::<char>::empty())
        } else {
            head.drop_last().push(head.last().push(s.last()))
        }
    }
}

/// The texts of a vector.
pub open spec fn texts(v: Seq<String>) -> Seq<Seq<char>> {
    v.map_values(|s: String| s@)
}

/// The view of an optional text.
pub open spec fn optional(t: Option<String>) -> Option<Seq<char>> {
    match t {
        Some(s) => Some(s@),
        None => None,
    }
}

/// The texts of a vector of borrowed texts.
pub open spec fn borrowed(v: Seq<&str>) -> Seq<Seq<char>> {
    v.map_values(|s: &str| s@)
}

/// Splits `s` at every `c`.
pub fn split_at_char(s: &str, c: char) -> (r: Vec<String>)
    ensures
        texts(r@) == split(s@, c),
{
    let cs = chars_of(s);
    let mut r: Vec<String> = Vec::new();
    let mut piece = String::new();
    let mut i: usize = 0;
    proof {
        assert(cs@.take(0) =~= Seq::<char>::empty());
        assert(texts(r@).push(piece@) =~= split(cs@.take(0), c));
    }
    while i < cs.len()
        invariant
            i <= cs@.len(),
            texts(r@).push(piece@) == split(cs@.take(i as int), c),
        decreases cs@.len() - i,
    {
        let x = cs[i];
        let ghost head = split(cs@.take(i as int), c);
        let ghost done = texts(r@);
        let ghost last = piece@;
        proof {
            assert(cs@.take(i + 1).drop_last() =~= cs@.take(i as int));
            assert(head.drop_last() =~= done);
            assert(head.last() == last);
        }
        if x == c {
            r.push(piece);
            piece = String::new();
            assert(texts(r@) =~= done.push(last));
        } else {
            piece.push(x);
        }
        assert(texts(r@).push(piece@) =~= split(cs@.take(i + 1), c));
        i += 1;
    }
    assert(cs@.take(i as int) =~= s@);
    let ghost done = texts(r@);
    let ghost last = piece@;
    r.push(piece);
    assert(texts(r@) =~= done.push(last));
    r
}

/// The texts one after another, with `sep` between any two.
pub open spec fn joined(parts: Seq<Seq<char>>, sep: Seq<char>) -> Seq<char>
    decreases parts.len(),
{
    if parts.len() == 0 {
        Seq::empty()
    } else if parts.len() == 1 {
        parts[0]
    } else {
        joined(parts.drop_last(), sep) + sep + parts.last()
    }
}

/// Puts texts one after another, with `sep` between any two.
pub fn join(parts: &Vec<String>, sep: &str) -> (r: String)
    ensures
        r@ == joined(texts(parts@), sep@),
{
    let mut r = String::new();
    let mut i: usize = 0;
    let ghost all = texts(parts@);
    while i < parts.len()
        invariant
            i <= parts@.len(),
            all == texts(parts@),
            r@ == joined(all.take(i as int), sep@),
        decreases parts@.len() - i,
    {
        assert(all.take(i + 1).drop_last() =~= all.take(i as int));
        if i > 0 {
            r.append(sep);
        }
        r.append(parts[i].as_str());
        assert(r@ =~= joined(all.take(i + 1), sep@));
        i += 1;
    }
    assert(all.take(i as int) =~= all);
    r
}

/// Splitting a text that ends in the separator and a piece without it cuts off
/// just that piece.
pub proof fn lemma_split_last(s: Seq<char>, piece: Seq<char>, c: char)
    requires
        !piece.contains(c),
    ensures
        split(s.push(c) + piece, c) == split(s, c).push(piece),
    decreases piece.len(),
{
    if piece.len() == 0 {
        assert(s.push(c) + piece =~= s.push(c));
        assert(s.push(c).drop_last() =~= s);
        assert(piece =~= Seq::<char>::empty());
    } else {
        let whole = s.push(c) + piece;
        let front = piece.drop_last();
        assert(whole.drop_last() =~= s.push(c) + front);
        assert forall|i: int| 0 <= i < front.len() implies front[i] != c by {
            assert(piece.contains(piece[i]));
        }
        lemma_split_last(s, front, c);
        assert(piece.contains(piece.last()));
        assert(whole.last() == piece.last());
        let head = split(s, c).push(front);
        assert(head.drop_last() =~= split(s, c));
        assert(front.push(piece.last()) =~= piece);
    }
}

/// A text without the separator is one piece.
pub proof fn lemma_split_one(piece: Seq<char>, c: char)
    requires
        !piece.contains(c),
    ensures
        split(piece, c) == seq![piece],
    decreases piece.len(),
{
    if piece.len() > 0 {
        let front = piece.drop_last();
        assert forall|i: int| 0 <= i < front.len() implies front[i] != c by {
            assert(piece.contains(piece[i]));
        }
        lemma_split_one(front, c);
        assert(piece.contains(piece.last()));
        assert(seq![front].drop_last() =~= Seq::<Seq<char>>::empty());
        assert(front.push(piece.last()) =~= piece);
        assert(split(piece, c) =~= seq![piece]);
    } else {
        assert(piece =~= Seq::<char>::empty());
    }
}

/// Splitting undoes joining, where no part holds the separator.
pub proof fn law_split_undoes_join(parts: Seq<Seq<char>>, c: char)
    requires
        parts.len() > 0,
        forall|i: int| 0 <= i < parts.len() ==> !(#[trigger] parts[i]).contains(c),
    ensures
        split(joined(parts, seq![c]), c) == parts,
    decreases parts.len(),
{
    if parts.len() == 1 {
        lemma_split_one(parts[0], c);
        assert(parts =~= seq![parts[0]]);
    } else {
        let front = parts.drop_last();
        assert forall|i: int| 0 <= i < front.len() implies !(#[trigger] front[i]).contains(c) by {
            assert(!parts[i].contains(c));
        }
        law_split_undoes_join(front, c);
        lemma_split_last(joined(front, seq![c]), parts.last(), c);
        assert(joined(front, seq![c]) + seq![c] =~= joined(front, seq![c]).push(c));
        assert(front.push(parts.last()) =~= parts);
    }
}

// ---------------------------------------------------------------------------
// Numbers
// ---------------------------------------------------------------------------

/// The digit for `d`.
pub open spec fn digit(d: int) -> char {
    "0123456789abcdef"@[d]
}

/// `n` in decimal.
pub open spec fn decimal(n: nat) -> Seq<char>
    decreases n,
{
    if n < 10 {
        seq![digit(n as int)]
    } else {
        decimal(n / 10).push(digit((n % 10) as int))
    }
}

/// `n` in hexadecimal, with its `k` lowest digits.
pub open spec fn low_hex(n: nat, k: nat) -> Seq<char>
    decreases k,
{
    if k == 0 {
        Seq::empty()
    } else {
        low_hex(n / 16, (k - 1) as nat).push(digit((n % 16) as int))
    }
}

fn digit_char(d: u32) -> (r: char)
    requires
        d < 16,
    ensures
        r == digit(d as int),
{
    proof {
        reveal_strlit("0123456789abcdef");
    }
    match d {
        0 => '0',
        1 => '1',
        2 => '2',
        3 => '3',
        4 => '4',
        5 => '5',
        6 => '6',
        7 => '7',
        8 => '8',
        9 => '9',
        10 => 'a',
        11 => 'b',
        12 => 'c',
        13 => 'd',
        14 => 'e',
        _ => 'f',
    }
}

/// Writes `n` in decimal.
pub fn decimal_text(n: usize) -> (r: String)
    ensures
        r@ == decimal(n as nat),
    decreases n,
{
    if n < 10 {
        let mut r = String::new();
        r.push(digit_char(n as u32));
        r
    } else {
        let mut r = decimal_text(n / 10);
        r.push(digit_char((n % 10) as u32));
        r
    }
}

/// Writes `n` as eight hexadecimal digits.
pub fn hex8_text(n: u32) -> (r: String)
    ensures
        r@ == low_hex(n as nat, 8),
{
    hex_text(n, 8)
}

fn hex_text(n: u32, k: u32) -> (r: String)
    ensures
        r@ == low_hex(n as nat, k as nat),
    decreases k,
{
    if k == 0 {
        String::new()
    } else {
        let mut r = hex_text(n / 16, k - 1);
        r.push(digit_char(n % 16));
        r
    }
}

/// The `k`th power of sixteen.
spec fn sixteens(k: nat) -> nat
    decreases k,
{
    if k == 0 {
        1
    } else {
        16 * sixteens((k - 1) as nat)
    }
}

proof fn lemma_low_hex_tells_apart(n: nat, m: nat, k: nat)
    requires
        n < sixteens(k),
        m < sixteens(k),
        low_hex(n, k) == low_hex(m, k),
    ensures
        n == m,
    decreases k,
{
    if k > 0 {
        let a = low_hex(n / 16, (k - 1) as nat);
        let b = low_hex(m / 16, (k - 1) as nat);
        assert(low_hex(n, k).last() == digit((n % 16) as int));
        assert(low_hex(m, k).last() == digit((m % 16) as int));
        assert(low_hex(n, k).drop_last() =~= a);
        assert(low_hex(m, k).drop_last() =~= b);
        reveal_strlit("0123456789abcdef");
        assert(n % 16 == m % 16);
        lemma_low_hex_tells_apart(n / 16, m / 16, (k - 1) as nat);
    }
}

/// Different numbers are written with different digits.
pub proof fn lemma_hex8_tells_apart(n: u32, m: u32)
    requires
        low_hex(n as nat, 8) == low_hex(m as nat, 8),
    ensures
        n == m,
{
    reveal_with_fuel(sixteens, 9);
    lemma_low_hex_tells_apart(n as nat, m as nat, 8);
}

/// As many digits are written as asked for.
pub proof fn lemma_low_hex_len(n: nat, k: nat)
    ensures
        low_hex(n, k).len() == k,
    decreases k,
{
    if k > 0 {
        lemma_low_hex_len(n / 16, (k - 1) as nat);
    }
}

/// Puts what failed in front of why.
pub fn failure(what: &str, why: &str) -> (r: String)
    ensures
        r@ == what@ + ": "@ + why@,
{
    let mut r = what.to_owned();
    r.append(": ");
    r.append(why);
    r
}

} // verus!
