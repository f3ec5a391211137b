//! Slash-separated path texts, taken apart as `std::path` does on Unix.
//!
//! Repeated slashes, slashes at the end, and components `.` that do not stand at
//! the very front of a path are passed over.

use vstd::prelude::*;
use vstd::string::StringExecFns;
use crate::text;

verus! {

/// What the components stand behind: the root `/`, a leading `.`, or nothing.
pub open spec fn head(path: Seq<char>) -> Seq<char> {
    if path.len() > 0 && (path[0] == '/' || (path[0] == '.' && (path.len() == 1 || path[1]
        == '/'))) {
        path.take(1)
    } else {
        Seq::empty()
    }
}

/// What stands behind the head.
pub open spec fn body(path: Seq<char>) -> Seq<char> {
    path.skip(head(path).len() as int)
}

/// The text before the last slash and the component after it.
pub open spec fn popped(b: Seq<char>) -> (Seq<char>, Seq<char>) {
    match text::cut_last(b, '/') {
        Some((rest, component)) => (rest, component),
        None => (Seq::empty(), b),
    }
}

/// A component that names nothing.
pub open spec fn is_trivial(component: Seq<char>) -> bool {
    component.len() == 0 || component == seq!['.']
}

/// The text without the trivial components at its end.
pub open spec fn pruned(b: Seq<char>) -> Seq<char>
    decreases b.len(),
{
    if b.len() == 0 {
        b
    } else {
        proof {
            lemma_cut_last_is_shorter(b);
        }
        if is_trivial(popped(b).1) {
            pruned(popped(b).0)
        } else {
            b
        }
    }
}

/// The last component, unless it is `..`, the root or a leading `.`.
pub open spec fn name_of(path: Seq<char>) -> Option<Seq<char>> {
    let b = pruned(body(path));
    if b.len() == 0 || popped(b).1 == seq!['.', '.'] {
        None
    } else {
        Some(popped(b).1)
    }
}

/// The path without its last component. The root and the empty path have none.
pub open spec fn parent_of(path: Seq<char>) -> Option<Seq<char>> {
    let b = pruned(body(path));
    if b.len() > 0 {
        Some(head(path) + pruned(popped(b).0))
    } else if head(path) == seq!['.'] {
        Some(Seq::empty())
    } else {
        None
    }
}

/// The parent directory without slashes at its end, or nothing.
pub open spec fn dir_of(path: Seq<char>) -> Seq<char> {
    match parent_of(path) {
        Some(p) => text::without_trailing(p, '/'),
        None => Seq::empty(),
    }
}

/// Cutting leaves a shorter text.
pub proof fn lemma_cut_last_is_shorter(b: Seq<char>)
    ensures
        match text::cut_last(b, '/') {
            Some((rest, _)) => rest.len() < b.len(),
            None => true,
        },
    decreases b.len(),
{
    if b.len() > 0 && b.last() != '/' {
        lemma_cut_last_is_shorter(b.drop_last());
    }
}

/// Where the last component of `cs[from..to]` begins, and where the text before it
/// ends.
fn last_component(cs: &Vec<char>, from: usize, to: usize) -> (r: (usize, usize))
    requires
        from < to <= cs@.len(),
    ensures
        from <= r.0 <= r.1 <= to,
        r.0 < to,
        popped(cs@.subrange(from as int, to as int)) == (
            cs@.subrange(from as int, r.0 as int),
            cs@.subrange(r.1 as int, to as int),
        ),
{
    let ghost b = cs@.subrange(from as int, to as int);
    let mut i: usize = to;
    while i > from
        invariant
            from <= i <= to <= cs@.len(),
            b == cs@.subrange(from as int, to as int),
            forall|j: int| i <= j < to ==> cs@[j] != '/',
        decreases i,
    {
        i -= 1;
        if cs[i] == '/' {
            proof {
                let k = i - from;
                assert(text::last_at(b, '/', k));
                text::lemma_cut_last(b, '/', k);
                assert(b.take(k) =~= cs@.subrange(from as int, i as int));
                assert(b.skip(k + 1) =~= cs@.subrange(i + 1, to as int));
            }
            return (i, i + 1);
        }
    }
    proof {
        assert(!b.contains('/'));
        text::lemma_cut_none(b, '/');
        assert(cs@.subrange(from as int, from as int) =~= Seq::<char>::empty());
    }
    (from, from)
}

/// Where `cs[from..to]` ends without the trivial components at its end.
fn pruned_end(cs: &Vec<char>, from: usize, to: usize) -> (r: usize)
    requires
        from <= to <= cs@.len(),
    ensures
        from <= r <= to,
        pruned(cs@.subrange(from as int, to as int)) == cs@.subrange(from as int, r as int),
{
    let mut end: usize = to;
    while end > from
        invariant
            from <= end <= to <= cs@.len(),
            pruned(cs@.subrange(from as int, end as int)) == pruned(
                cs@.subrange(from as int, to as int),
            ),
        decreases end,
    {
        let (rest, start) = last_component(cs, from, end);
        let ghost component = cs@.subrange(start as int, end as int);
        if start == end || (start + 1 == end && cs[start] == '.') {
            assert(start + 1 == end ==> component =~= seq!['.']);
            end = rest;
        } else {
            assert(!is_trivial(component)) by {
                if component == seq!['.'] {
                    assert(component.len() == 1);
                    assert(component[0] == '.');
                }
            }
            return end;
        }
    }
    end
}

/// How long the head of the path is.
fn head_len(cs: &Vec<char>) -> (r: usize)
    ensures
        r == head(cs@).len(),
        r <= cs@.len(),
        head(cs@) == cs@.take(r as int),
        body(cs@) == cs@.subrange(r as int, cs@.len() as int),
{
    let r: usize = if cs.len() > 0 && (cs[0] == '/' || (cs[0] == '.' && (cs.len() == 1 || cs[1]
        == '/'))) {
        1
    } else {
        0
    };
    proof {
        assert(cs@.take(0) =~= Seq::<char>::empty());
        assert(body(cs@) =~= cs@.subrange(r as int, cs@.len() as int));
    }
    r
}

/// The last component of a path.
pub fn file_name(path: &str) -> (r: Option<String>)
    ensures
        text::optional(r) == name_of(path@),
{
    let cs = text::chars_of(path);
    let from = head_len(&cs);
    let end = pruned_end(&cs, from, cs.len());
    if end == from {
        return None;
    }
    let (_, start) = last_component(&cs, from, end);
    let ghost component = cs@.subrange(start as int, end as int);
    if end - start == 2 && cs[start] == '.' && cs[start + 1] == '.' {
        assert(component =~= seq!['.', '.']);
        return None;
    }
    assert(component != seq!['.', '.']) by {
        if component == seq!['.', '.'] {
            assert(component.len() == 2);
            assert(component[0] == '.');
            assert(component[1] == '.');
        }
    }
    Some(text::text_of(&cs, start, end))
}

/// The path without its last component.
pub fn parent(path: &str) -> (r: Option<String>)
    ensures
        text::optional(r) == parent_of(path@),
{
    let cs = text::chars_of(path);
    let from = head_len(&cs);
    let end = pruned_end(&cs, from, cs.len());
    if end == from {
        if from == 1 && cs[0] == '.' {
            assert(head(path@) =~= seq!['.']);
            let r = String::new();
            assert(r@ =~= Seq::<char>::empty());
            return Some(r);
        }
        assert(head(path@) != seq!['.']) by {
            if head(path@) == seq!['.'] {
                assert(head(path@)[0] == '.');
            }
        }
        return None;
    }
    let (rest, _) = last_component(&cs, from, end);
    let to = pruned_end(&cs, from, rest);
    assert(head(path@) + cs@.subrange(from as int, to as int) =~= cs@.subrange(0, to as int));
    Some(text::text_of(&cs, 0, to))
}

/// The parent directory without slashes at its end, or nothing.
pub fn parent_dir(path: &str) -> (r: String)
    ensures
        r@ == dir_of(path@),
{
    match parent(path) {
        Some(p) => text::trim_end_char(p.as_str(), '/'),
        None => {
            let r = String::new();
            assert(r@ =~= Seq::<char>::empty());
            r
        },
    }
}

/// A path's last component holds no slash.
pub proof fn lemma_name_has_no_slash(path: Seq<char>)
    ensures
        match name_of(path) {
            Some(name) => !name.contains('/'),
            None => true,
        },
{
    lemma_last_piece_is_free(pruned(body(path)));
}

proof fn lemma_last_piece_is_free(b: Seq<char>)
    ensures
        !popped(b).1.contains('/'),
    decreases b.len(),
{
    if b.len() > 0 && b.last() != '/' {
        lemma_last_piece_is_free(b.drop_last());
        let front = popped(b.drop_last()).1;
        match text::cut_last(b.drop_last(), '/') {
            Some((_, _)) => {
                assert(popped(b).1 == front.push(b.last()));
            },
            None => {
                assert(popped(b).1 =~= front.push(b.last()));
            },
        }
        assert forall|i: int| 0 <= i < popped(b).1.len() implies popped(b).1[i] != '/' by {
            if i < front.len() {
                assert(front.contains(front[i]));
            }
        }
    }
}

/// The path with another behind it. A path from the root stands for itself.
pub open spec fn path_in(dir: Seq<char>, path: Seq<char>) -> Seq<char> {
    if path.len() > 0 && path[0] == '/' {
        path
    } else if dir.len() == 0 || dir.last() == '/' {
        dir + path
    } else {
        dir + "/"@ + path
    }
}

/// Puts a path behind a directory.
pub fn join(dir: &str, path: &str) -> (r: String)
    ensures
        r@ == path_in(dir@, path@),
{
    let ds = text::chars_of(dir);
    let ps = text::chars_of(path);
    if ps.len() > 0 && ps[0] == '/' {
        return path.to_owned();
    }
    let mut r = dir.to_owned();
    if ds.len() > 0 && ds[ds.len() - 1] != '/' {
        r.append("/");
    }
    r.append(path);
    r
}

} // verus!
