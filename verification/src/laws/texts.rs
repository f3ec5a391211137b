//! Texts and paths.

use vstd::prelude::*;
use crate::{bench, paths, text};

verus! {

/// A text begins with a prefix exactly if it is the prefix with something behind it.
pub proof fn law_prefix(s: Seq<char>, prefix: Seq<char>, rest: Seq<char>)
    ensures
        text::has_prefix(prefix + rest, prefix),
        text::has_prefix(s, prefix) <==> s == prefix + s.skip(prefix.len() as int)
            && prefix.len() <= s.len(),
{
    assert((prefix + rest).take(prefix.len() as int) =~= prefix);
    if prefix.len() <= s.len() {
        assert(s =~= s.take(prefix.len() as int) + s.skip(prefix.len() as int));
        assert((prefix + s.skip(prefix.len() as int)).take(prefix.len() as int) =~= prefix);
    }
}

/// A text ends with a suffix exactly if it is the suffix with something before it.
pub proof fn law_suffix(s: Seq<char>, suffix: Seq<char>, front: Seq<char>)
    ensures
        text::has_suffix(front + suffix, suffix),
        text::has_suffix(s, suffix) <==> suffix.len() <= s.len() && s == s.take(
            s.len() - suffix.len(),
        ) + suffix,
{
    assert((front + suffix).skip(front.len() as int) =~= suffix);
    if suffix.len() <= s.len() {
        let k = s.len() - suffix.len();
        assert(s =~= s.take(k) + s.skip(k));
        assert((s.take(k) + suffix).skip(k) =~= suffix);
    }
}

/// A text holds another exactly if it is that one with something around it.
pub proof fn law_contained(before: Seq<char>, needle: Seq<char>, behind: Seq<char>, s: Seq<char>)
    ensures
        text::contains_text(before + needle + behind, needle),
        text::contains_text(s, needle) ==> exists|a: Seq<char>, b: Seq<char>|
            s == #[trigger] (a + needle + b),
{
    let whole = before + needle + behind;
    let k = before.len() as int;
    assert(whole.subrange(k, k + needle.len()) =~= needle);
    assert(text::occurs_at(whole, needle, k));
    if text::contains_text(s, needle) {
        let k = choose|k: int| text::occurs_at(s, needle, k);
        let a = s.take(k);
        let b = s.skip(k + needle.len());
        assert(s =~= a + s.subrange(k, k + needle.len()) + b);
        assert(s == a + needle + b);
    }
}

/// A text is cut at the first `c`: what stands before it holds none.
pub proof fn law_cut_first(a: Seq<char>, c: char, b: Seq<char>, s: Seq<char>)
    requires
        !a.contains(c),
    ensures
        text::cut_first(a + seq![c] + b, c) == Some((a, b)),
        text::cut_first(s, c) is None <==> !s.contains(c),
{
    let whole = a + seq![c] + b;
    let k = a.len() as int;
    assert forall|j: int| 0 <= j < k implies whole[j] != c by {
        assert(a.contains(a[j]));
    }
    text::lemma_cut_first(whole, c, k);
    assert(whole.take(k) =~= a);
    assert(whole.skip(k + 1) =~= b);
    if s.contains(c) {
        let i = lemma_first_place(s, c);
        text::lemma_cut_first(s, c, i);
    } else {
        text::lemma_cut_none(s, c);
    }
}

/// A text that holds `c` has a first one.
pub proof fn lemma_first_place(s: Seq<char>, c: char) -> (k: int)
    requires
        s.contains(c),
    ensures
        text::first_at(s, c, k),
    decreases s.len(),
{
    if s.first() == c {
        0
    } else {
        let rest = s.drop_first();
        let i = choose|i: int| 0 <= i < s.len() && s[i] == c;
        assert(rest[i - 1] == c);
        let k = lemma_first_place(rest, c);
        assert forall|j: int| 0 <= j < k + 1 implies s[j] != c by {
            if j > 0 {
                assert(rest[j - 1] != c);
            }
        }
        k + 1
    }
}

/// A text is cut at the last `c`: what stands behind it holds none.
pub proof fn law_cut_last(a: Seq<char>, c: char, b: Seq<char>, s: Seq<char>)
    requires
        !b.contains(c),
    ensures
        text::cut_last(a + seq![c] + b, c) == Some((a, b)),
        text::cut_last(s, c) is None <==> !s.contains(c),
{
    let whole = a + seq![c] + b;
    let k = a.len() as int;
    assert forall|j: int| k < j < whole.len() implies whole[j] != c by {
        assert(b.contains(b[j - k - 1]));
    }
    text::lemma_cut_last(whole, c, k);
    assert(whole.take(k) =~= a);
    assert(whole.skip(k + 1) =~= b);
    if s.contains(c) {
        let i = lemma_last_place(s, c);
        text::lemma_cut_last(s, c, i);
    } else {
        text::lemma_cut_none(s, c);
    }
}

/// A text that holds `c` has a last one.
pub proof fn lemma_last_place(s: Seq<char>, c: char) -> (k: int)
    requires
        s.contains(c),
    ensures
        text::last_at(s, c, k),
    decreases s.len(),
{
    if s.last() == c {
        s.len() - 1
    } else {
        let rest = s.drop_last();
        let i = choose|i: int| 0 <= i < s.len() && s[i] == c;
        assert(rest[i] == c);
        let k = lemma_last_place(rest, c);
        assert forall|j: int| k < j < s.len() implies s[j] != c by {
            if j < rest.len() {
                assert(rest[j] != c);
            }
        }
        k
    }
}

/// Replacing a character touches that character only.
pub proof fn law_replacing(s: Seq<char>, from: char, to: char, i: int)
    requires
        0 <= i < s.len(),
    ensures
        text::replaced(s, from, to).len() == s.len(),
        s[i] == from ==> text::replaced(s, from, to)[i] == to,
        s[i] != from ==> text::replaced(s, from, to)[i] == s[i],
{
}

/// White space is what Unicode counts as such: the controls from tab to carriage return,
/// the blank, and the spaces and separators beyond ASCII.
pub proof fn law_white_space(c: char)
    ensures
        c == ' ' || c == '\t' || c == '\n' || c == '\r' ==> text::is_white(c),
        '!' <= c <= '~' ==> !text::is_white(c),
        text::is_white(c) <==> ({
            let n = c as int;
            ||| 9 <= n <= 13
            ||| n == 32
            ||| n == 133
            ||| n == 160
            ||| n == 5760
            ||| 8192 <= n <= 8202
            ||| n == 8232
            ||| n == 8233
            ||| n == 8239
            ||| n == 8287
            ||| n == 12288
        }),
{
}

/// Trimming takes the white space off both ends and nothing else.
pub proof fn law_trimming(before: Seq<char>, s: Seq<char>, behind: Seq<char>)
    requires
        forall|i: int| 0 <= i < before.len() ==> text::is_white(#[trigger] before[i]),
        forall|i: int| 0 <= i < behind.len() ==> text::is_white(#[trigger] behind[i]),
        s.len() > 0 ==> !text::is_white(s.first()) && !text::is_white(s.last()),
    ensures
        text::trimmed(before + s + behind) == s,
{
    lemma_trim_front(before, s + behind);
    assert(before + (s + behind) =~= before + s + behind);
    if s.len() == 0 {
        assert(s + behind =~= behind);
        assert(behind + Seq::<char>::empty() =~= behind);
        lemma_trim_front(behind, Seq::empty());
        assert(text::trim_front(s + behind) == Seq::<char>::empty());
        assert(text::trim_back(Seq::empty()) == Seq::<char>::empty());
        assert(s =~= Seq::<char>::empty());
    } else {
        assert((s + behind).first() == s.first());
        lemma_trim_back(s, behind);
    }
}

proof fn lemma_trim_front(before: Seq<char>, s: Seq<char>)
    requires
        forall|i: int| 0 <= i < before.len() ==> text::is_white(#[trigger] before[i]),
    ensures
        text::trim_front(before + s) == text::trim_front(s),
    decreases before.len(),
{
    if before.len() == 0 {
        assert(before + s =~= s);
    } else {
        assert((before + s).first() == before[0]);
        assert((before + s).drop_first() =~= before.drop_first() + s);
        lemma_trim_front(before.drop_first(), s);
    }
}

proof fn lemma_trim_back(s: Seq<char>, behind: Seq<char>)
    requires
        forall|i: int| 0 <= i < behind.len() ==> text::is_white(#[trigger] behind[i]),
        s.len() > 0,
        !text::is_white(s.last()),
    ensures
        text::trim_back(s + behind) == s,
    decreases behind.len(),
{
    if behind.len() == 0 {
        assert(s + behind =~= s);
    } else {
        assert((s + behind).last() == behind[behind.len() - 1]);
        assert((s + behind).drop_last() =~= s + behind.drop_last());
        lemma_trim_back(s, behind.drop_last());
    }
}

/// Of the characters at the end, exactly those that are `c` are cut off.
pub proof fn law_without_trailing(s: Seq<char>, c: char)
    ensures
        ({
            let r = text::without_trailing(s, c);
            &&& r.len() <= s.len()
            &&& s.take(r.len() as int) == r
            &&& forall|j: int| r.len() <= j < s.len() ==> s[j] == c
            &&& r.len() > 0 ==> r.last() != c
        }),
    decreases s.len(),
{
    if s.len() > 0 && s.last() == c {
        law_without_trailing(s.drop_last(), c);
        let r = text::without_trailing(s, c);
        assert(s.take(r.len() as int) =~= s.drop_last().take(r.len() as int));
        assert forall|j: int| r.len() <= j < s.len() implies s[j] == c by {
            if j < s.len() - 1 {
                assert(s.drop_last()[j] == c);
            }
        }
    } else {
        assert(s.take(s.len() as int) =~= s);
    }
}

/// Joining undoes splitting, and no piece holds the separator.
pub proof fn law_join_undoes_split(s: Seq<char>, c: char)
    ensures
        text::split(s, c).len() > 0,
        text::joined(text::split(s, c), seq![c]) == s,
        forall|i: int|
            0 <= i < text::split(s, c).len() ==> !(#[trigger] text::split(s, c)[i]).contains(c),
    decreases s.len(),
{
    let parts = text::split(s, c);
    if s.len() == 0 {
        assert(text::joined(parts, seq![c]) =~= s);
        assert(!parts[0].contains(c));
    } else {
        let head = text::split(s.drop_last(), c);
        law_join_undoes_split(s.drop_last(), c);
        if s.last() == c {
            assert(parts.drop_last() =~= head);
            assert(text::joined(parts, seq![c]) =~= s);
        } else {
            let last = head.last().push(s.last());
            assert(parts.drop_last() =~= head.drop_last());
            assert(text::joined(parts, seq![c]) =~= text::joined(head, seq![c]).push(s.last()));
            assert(!last.contains(c)) by {
                assert(!head[head.len() - 1].contains(c));
                assert forall|j: int| 0 <= j < last.len() implies last[j] != c by {
                    if j < head.last().len() {
                        assert(head.last().contains(head.last()[j]));
                    }
                }
            }
            assert forall|i: int| 0 <= i < parts.len() implies !(#[trigger] parts[i]).contains(c) by {
                if i < parts.len() - 1 {
                    assert(parts[i] == head[i]);
                }
            }
        }
    }
}

/// Joining two lists puts one separator between what each gives.
pub proof fn law_joining(a: Seq<Seq<char>>, b: Seq<Seq<char>>, one: Seq<char>, sep: Seq<char>)
    requires
        a.len() > 0,
        b.len() > 0,
    ensures
        text::joined(Seq::empty(), sep) == Seq::<char>::empty(),
        text::joined(seq![one], sep) == one,
        text::joined(a + b, sep) == text::joined(a, sep) + sep + text::joined(b, sep),
    decreases b.len(),
{
    let all = a + b;
    assert(all.drop_last() =~= a + b.drop_last());
    if b.len() == 1 {
        assert(all.drop_last() =~= a);
    } else {
        law_joining(a, b.drop_last(), one, sep);
        assert(text::joined(all, sep) =~= text::joined(a, sep) + sep + text::joined(b, sep));
    }
}

/// A number is written in decimal digits, the last digit last, without a needless zero
/// in front.
pub proof fn law_decimal(n: nat)
    ensures
        text::decimal(n).len() > 0,
        text::decimal(n).last() as int == '0' as int + n % 10,
        n < 10 ==> text::decimal(n).len() == 1,
        n >= 10 ==> text::decimal(n).drop_last() == text::decimal(n / 10),
        n > 0 ==> text::decimal(n).first() != '0',
    decreases n,
{
    reveal_strlit("0123456789abcdef");
    if n >= 10 {
        law_decimal(n / 10);
        assert(text::decimal(n).drop_last() =~= text::decimal(n / 10));
        assert(text::decimal(n).first() == text::decimal(n / 10).first());
    }
}

/// Different numbers are written differently.
pub proof fn law_decimal_tells_apart(n: nat, m: nat)
    requires
        text::decimal(n) == text::decimal(m),
    ensures
        n == m,
    decreases n,
{
    law_decimal(n);
    law_decimal(m);
    if n >= 10 && m >= 10 {
        law_decimal_tells_apart(n / 10, m / 10);
    } else if n >= 10 {
        law_decimal(n / 10);
    } else if m >= 10 {
        law_decimal(m / 10);
    }
}

/// Hexadecimal digits are `0` to `9` and `a` to `f`, the last digit last.
pub proof fn law_hexadecimal(n: nat, k: nat)
    requires
        k > 0,
    ensures
        text::low_hex(n, k).len() == k,
        n % 16 < 10 ==> text::low_hex(n, k).last() as int == '0' as int + n % 16,
        n % 16 >= 10 ==> text::low_hex(n, k).last() as int == 'a' as int + n % 16 - 10,
        text::low_hex(n, k).drop_last() == text::low_hex(n / 16, (k - 1) as nat),
{
    reveal_strlit("0123456789abcdef");
    text::lemma_low_hex_len(n, k);
    assert(text::low_hex(n, k).drop_last() =~= text::low_hex(n / 16, (k - 1) as nat));
}

/// Aligning to the right puts blanks in front until the width is reached.
pub proof fn law_right_aligned(s: Seq<char>, width: nat)
    ensures
        ({
            let r = bench::right_aligned(s, width);
            &&& r.len() == if s.len() >= width {
                s.len()
            } else {
                width
            }
            &&& r.skip(r.len() - s.len()) == s
            &&& forall|i: int| 0 <= i < r.len() - s.len() ==> r[i] == ' '
        }),
    decreases width,
{
    let r = bench::right_aligned(s, width);
    if s.len() < width {
        let less = bench::right_aligned(s, (width - 1) as nat);
        law_right_aligned(s, (width - 1) as nat);
        assert(r.skip(r.len() - s.len()) =~= less.skip(less.len() - s.len()));
        assert forall|i: int| 0 <= i < r.len() - s.len() implies r[i] == ' ' by {
            if i > 0 {
                assert(less[i - 1] == ' ');
            }
        }
    } else {
        assert(r.skip(0) =~= s);
    }
}

// ---------------------------------------------------------------------------
// Paths
// ---------------------------------------------------------------------------

/// A text that names a file or a directory inside another.
pub open spec fn is_component(name: Seq<char>) -> bool {
    name.len() > 0 && !name.contains('/') && name != seq!['.'] && name != seq!['.', '.']
}

/// A text that stands for a directory in the shortest way: no slash and no `.` component
/// at its end.
pub open spec fn is_plain_dir(dir: Seq<char>) -> bool {
    &&& dir.len() > 0 ==> dir.last() != '/'
    &&& dir.len() > 1 ==> !(dir[dir.len() - 2] == '/' && dir.last() == '.')
}

/// A file in a directory has its own name and that directory, whatever the directory
/// and however the file is called.
pub proof fn law_file_in_directory(dir: Seq<char>, name: Seq<char>)
    requires
        is_component(name),
        is_plain_dir(dir),
    ensures
        paths::name_of(dir + seq!['/'] + name) == Some(name),
        paths::dir_of(dir + seq!['/'] + name) == dir,
{
    let path = dir + seq!['/'] + name;
    let h = paths::head(path);
    let b = paths::body(path);
    assert(path[dir.len() as int] == '/');
    if dir.len() == 0 {
        assert(path[0] == '/');
        assert(h =~= seq!['/']);
        assert(b =~= name);
        text::lemma_cut_none(name, '/');
        assert(paths::popped(b) == (Seq::<char>::empty(), name));
        assert(paths::pruned(b) == b);
        assert(paths::pruned(Seq::empty()) == Seq::<char>::empty());
        assert(paths::parent_of(path) == Some(h + Seq::<char>::empty()));
        assert(h + Seq::<char>::empty() =~= seq!['/']);
        let one = seq!['/'];
        assert(one.drop_last() =~= Seq::<char>::empty());
        assert(text::without_trailing(one.drop_last(), '/') == Seq::<char>::empty());
        assert(text::without_trailing(one, '/') == Seq::<char>::empty());
        assert(dir =~= Seq::<char>::empty());
    } else {
        let rest = dir.skip(h.len() as int);
        assert(h.len() <= 1);
        assert(h =~= dir.take(h.len() as int)) by {
            assert(path[0] == dir[0]);
            if h.len() == 1 {
                assert(path.take(1) =~= dir.take(1));
            }
        }
        assert(b =~= rest + seq!['/'] + name);
        law_cut_last(rest, '/', name, b);
        assert(paths::popped(b) == (rest, name));
        assert(paths::pruned(b) == b);
        lemma_plain_rest(dir, h.len() as int);
        assert(paths::parent_of(path) == Some(h + rest));
        assert(h + rest =~= dir);
        assert(text::without_trailing(dir, '/') == dir);
    }
}

/// A path that is only a name has no directory; neither slashes nor `.` components at its
/// end change the name of a path; a path that ends in `..` has none, and the root has none.
pub proof fn law_names_of_paths(dir: Seq<char>, name: Seq<char>)
    requires
        is_component(name),
        is_plain_dir(dir),
    ensures
        paths::name_of(name) == Some(name),
        paths::dir_of(name) == Seq::<char>::empty(),
        paths::name_of(dir + seq!['/'] + name + seq!['/']) == Some(name),
        paths::name_of(dir + seq!['/'] + name + seq!['/', '.']) == Some(name),
        paths::name_of(dir + seq!['/', '.', '.']) is None,
        paths::name_of(seq!['/']) is None,
        paths::name_of(Seq::empty()) is None,
{
    let none = Seq::<char>::empty();
    assert(paths::pruned(none) == none);
    text::lemma_cut_none(name, '/');
    assert(paths::head(name) =~= none) by {
        if name[0] == '/' {
            assert(name.contains('/'));
        }
        if name.len() > 1 && name[1] == '/' {
            assert(name.contains('/'));
        }
        if name.len() == 1 && name[0] == '.' {
            assert(name =~= seq!['.']);
        }
    }
    assert(paths::body(name) =~= name);
    assert(paths::popped(name) == (none, name));
    assert(paths::pruned(name) == name);
    assert(paths::parent_of(name) == Some(none + none));
    assert(none + none =~= none);
    assert(text::without_trailing(none, '/') == none);
    assert(seq!['/'] + none =~= seq!['/']);
    lemma_ends_do_not_count(dir, name, seq!['/'], none);
    assert(seq!['/'] + seq!['.'] =~= seq!['/', '.']);
    lemma_ends_do_not_count(dir, name, seq!['/', '.'], seq!['.']);
    let up = dir + seq!['/', '.', '.'];
    let dots = seq!['.', '.'];
    let h = paths::head(up).len() as int;
    let b = paths::body(up);
    if dir.len() == 0 {
        assert(up[0] == '/');
        assert(b =~= dots);
        assert(!dots.contains('/'));
        text::lemma_cut_none(dots, '/');
    } else {
        let rest = dir.skip(h);
        assert(b =~= rest + seq!['/'] + dots);
        assert(!dots.contains('/'));
        law_cut_last(rest, '/', dots, b);
    }
    assert(paths::popped(b).1 == dots);
    assert(dots.len() == 2);
    assert(paths::pruned(b) == b);
    assert(paths::body(seq!['/']) =~= none);
    assert(paths::body(none) =~= none);
}

proof fn lemma_ends_do_not_count(
    dir: Seq<char>,
    name: Seq<char>,
    end: Seq<char>,
    component: Seq<char>,
)
    requires
        is_component(name),
        is_plain_dir(dir),
        component.len() == 0 || component == seq!['.'],
        end == seq!['/'] + component,
    ensures
        paths::name_of(dir + seq!['/'] + name + end) == Some(name),
{
    let path = dir + seq!['/'] + name;
    let long = path + end;
    let h = paths::head(path).len() as int;
    assert(paths::head(long).len() == h) by {
        assert(long[0] == path[0]);
        if path.len() > 1 {
            assert(long[1] == path[1]);
        }
    }
    let b = paths::body(path);
    let c = paths::body(long);
    assert(c =~= b + seq!['/'] + component);
    assert(!component.contains('/'));
    law_cut_last(b, '/', component, c);
    assert(paths::popped(c) == (b, component));
    assert(paths::pruned(c) == paths::pruned(b));
    law_file_in_directory(dir, name);
}

/// What stands behind the head of a plain directory is not pruned.
proof fn lemma_plain_rest(dir: Seq<char>, k: int)
    requires
        is_plain_dir(dir),
        dir.len() > 0,
        0 <= k <= 1,
        k == 1 ==> dir[0] == '/' || dir[0] == '.',
        k == 1 && dir[0] == '.' && dir.len() > 1 ==> dir[1] == '/',
        k == 0 ==> dir[0] != '/' && !(dir[0] == '.' && dir.len() == 1),
    ensures
        paths::pruned(dir.skip(k)) == dir.skip(k),
{
    let rest = dir.skip(k);
    if rest.len() > 0 {
        assert(rest.last() == dir.last());
        let piece = paths::popped(rest).1;
        if rest.contains('/') {
            let i = lemma_last_place(rest, '/');
            text::lemma_cut_last(rest, '/', i);
            assert(piece =~= rest.skip(i + 1));
            if piece == seq!['.'] {
                assert(piece.len() == 1);
                assert(i + 2 == rest.len());
                assert(rest[i] == dir[k + i]);
                assert(dir[dir.len() - 2] == '/');
                assert(piece[0] == '.');
                assert(rest[i + 1] == '.');
                assert(dir.last() == '.');
            }
            assert(piece.len() > 0);
        } else {
            text::lemma_cut_none(rest, '/');
            assert(piece == rest);
            if piece == seq!['.'] {
                assert(rest.len() == 1);
                assert(rest[0] == '.');
                if k == 1 {
                    assert(dir.len() == 2);
                    assert(dir[dir.len() - 2] == dir[0]);
                    assert(dir[1] == rest[0]);
                } else {
                    assert(dir[0] == rest[0]);
                }
            }
        }
    }
}

/// Putting a path behind a directory gives a path with that directory and name.
pub proof fn law_joined_path(dir: Seq<char>, name: Seq<char>)
    requires
        is_component(name),
        is_plain_dir(dir),
        dir.len() > 0,
    ensures
        paths::path_in(dir, name) == dir + seq!['/'] + name,
        paths::path_in(dir + seq!['/'], name) == dir + seq!['/'] + name,
        paths::path_in(dir, seq!['/'] + name) == seq!['/'] + name,
{
    reveal_strlit("/");
    assert("/"@ =~= seq!['/']);
    assert(name.contains(name[0]));
    assert((dir + seq!['/']).last() == '/');
    assert((seq!['/'] + name)[0] == '/');
}

} // verus!
