//! Unix paths as strings.
use crate::text;
use vstd::prelude::*;

verus! {

/// `rel` inside `base`: an absolute `rel` stands alone, and a slash parts the two unless `base` is
/// empty or ends with one.
pub open spec fn joined(base: Seq<char>, rel: Seq<char>) -> Seq<char> {
    if rel.len() > 0 && rel[0] == '/' {
        rel
    } else if base.len() == 0 || base.last() == '/' {
        base + rel
    } else {
        base + "/"@ + rel
    }
}

/// A relative path joined to another goes below it, behind one slash; an absolute one stands alone.
pub proof fn joining_goes_below(base: Seq<char>, rel: Seq<char>)
    ensures
        base.len() > 0 && base.last() != '/' && !(rel.len() > 0 && rel[0] == '/') ==> joined(
            base,
            rel,
        ) == base + seq!['/'] + rel,
        base.len() > 0 && base.last() == '/' && !(rel.len() > 0 && rel[0] == '/') ==> joined(
            base,
            rel,
        ) == base + rel,
        rel.len() > 0 && rel[0] == '/' ==> joined(base, rel) == rel,
        base.len() == 0 ==> joined(base, rel) == rel,
{
    reveal_strlit("/");
    assert("/"@ =~= seq!['/']);
    if base.len() == 0 {
        assert(base + rel =~= rel);
    }
}

/// Joins two paths.
pub fn join(base: &str, rel: &str) -> (r: String)
    ensures
        r@ == joined(base@, rel@),
{
    let r = text::chars_of(rel);
    if r.len() > 0 && r[0] == '/' {
        return rel.to_owned();
    }
    let b = text::chars_of(base);
    let mut s = base.to_owned();
    if b.len() > 0 && b[b.len() - 1] != '/' {
        s.append("/");
    }
    s.append(rel);
    s
}

/// Where the last component of a path starts: behind its last slash.
pub open spec fn base_start(p: Seq<char>) -> int
    decreases p.len(),
{
    if p.len() == 0 || p.last() == '/' {
        p.len() as int
    } else {
        base_start(p.drop_last())
    }
}

/// A path without the slashes and `/.` at its end.
pub open spec fn settled(p: Seq<char>) -> Seq<char>
    decreases p.len(),
{
    if p.len() > 0 && p.last() == '/' {
        settled(p.drop_last())
    } else if p.len() > 1 && p.last() == '.' && p[p.len() - 2] == '/' {
        settled(p.drop_last())
    } else {
        p
    }
}

/// The last component of a path, if it is a name.
pub open spec fn base_name(p: Seq<char>) -> Option<Seq<char>> {
    let q = settled(p);
    let n = q.skip(base_start(q));
    if n.len() == 0 || n == "."@ || n == ".."@ {
        None
    } else {
        Some(n)
    }
}

/// Gives the last component of a path, if it is a name.
pub fn file_name(p: &str) -> (r: Option<String>)
    ensures
        match r {
            Some(s) => base_name(p@) == Some(s@),
            None => base_name(p@) is None,
        },
{
    let cs = text::chars_of(p);
    let mut n: usize = cs.len();
    assert(cs@.take(n as int) =~= cs@);
    while n > 0 && (cs[n - 1] == '/' || (n > 1 && cs[n - 1] == '.' && cs[n - 2] == '/'))
        invariant
            cs@ == p@,
            n <= cs@.len(),
            settled(p@) == settled(cs@.take(n as int)),
        decreases n,
    {
        assert(cs@.take(n as int).drop_last() =~= cs@.take(n - 1));
        n = n - 1;
    }
    let ghost q = cs@.take(n as int);
    assert(settled(p@) == q);
    let mut i: usize = n;
    assert(q.take(i as int) =~= q);
    while i > 0 && cs[i - 1] != '/'
        invariant
            n <= cs@.len(),
            q == cs@.take(n as int),
            i <= n,
            base_start(q) == base_start(q.take(i as int)),
        decreases i,
    {
        assert(q.take(i as int).drop_last() =~= q.take(i - 1));
        i = i - 1;
    }
    assert(base_start(q) == i);
    let name = text::string_of(text::part(cs.as_slice(), i, n).as_slice());
    assert(name@ =~= q.skip(i as int));
    if n - i == 0 || text::str_eq(name.as_str(), ".") || text::str_eq(name.as_str(), "..") {
        return None;
    }
    Some(name)
}

/// The mark of a component in [`order_key`]: an unnamed component sorts before a name.
pub open spec fn part_mark(c: Seq<char>) -> Seq<char> {
    if c == ".."@ {
        "\0\u{2}"@
    } else {
        "\0\u{3}"@
    }
}

/// A component behind its mark. Nothing between two slashes, or a dot alone, is no component.
pub open spec fn part_key(c: Seq<char>) -> Seq<char> {
    if c.len() == 0 || c == "."@ {
        Seq::empty()
    } else {
        part_mark(c) + c
    }
}

/// The components of a path behind their marks.
pub open spec fn parts_key(p: Seq<char>) -> Seq<char>
    decreases p.len(),
    via parts_key_decreases
{
    match text::split_at_first(p, '/') {
        None => part_key(p),
        Some((a, b)) => part_key(a) + parts_key(b),
    }
}

#[via_fn]
proof fn parts_key_decreases(p: Seq<char>) {
    if let Some(i) = text::char_from(p, '/', 0) {
        found_within(p, '/', 0);
    }
}

proof fn found_within(s: Seq<char>, c: char, i: int)
    requires
        0 <= i,
        text::char_from(s, c, i) is Some,
    ensures
        i <= text::char_from(s, c, i)->Some_0 < s.len(),
    decreases s.len() - i,
{
    if i < s.len() && s[i] != c {
        found_within(s, c, i + 1);
    }
}

/// Whether the first component of a relative path is a dot alone.
pub open spec fn starts_here(p: Seq<char>) -> bool {
    match text::split_at_first(p, '/') {
        None => p == "."@,
        Some((a, _)) => a == "."@,
    }
}

/// A text by which paths sort as they do by their components: the root first, then `.`, then `..`,
/// then names, and a path before all it leads to. Two paths with the same components have the same
/// text.
pub open spec fn order_key(p: Seq<char>) -> Seq<char> {
    if p.len() > 0 && p[0] == '/' {
        "\0\0"@ + parts_key(p)
    } else if starts_here(p) {
        "\0\u{1}"@ + parts_key(p)
    } else {
        parts_key(p)
    }
}

fn push_part_key(s: &mut String, c: &str)
    ensures
        final(s)@ == old(s)@ + part_key(c@),
{
    let cs = text::chars_of(c);
    if cs.len() == 0 || text::str_eq(c, ".") {
        assert(s@ =~= old(s)@ + part_key(c@));
        return;
    }
    if text::str_eq(c, "..") {
        s.append("\0\u{2}");
    } else {
        s.append("\0\u{3}");
    }
    s.append(c);
    assert(s@ =~= old(s)@ + part_key(c@));
}

/// Gives a text by which a path sorts as it does by its components.
pub fn sort_key(p: &str) -> (r: String)
    ensures
        r@ == order_key(p@),
{
    let mut s = String::new();
    let cs = text::chars_of(p);
    if cs.len() > 0 && cs[0] == '/' {
        s.append("\0\0");
    } else {
        let here = match text::split_once(p, '/') {
            None => text::str_eq(p, "."),
            Some(ab) => text::str_eq(ab.0.as_str(), "."),
        };
        if here {
            s.append("\0\u{1}");
        }
    }
    let ghost start = s@;
    let mut rest = p.to_owned();
    assert(order_key(p@) =~= start + parts_key(p@));
    loop
        invariant_except_break
            order_key(p@) == s@ + parts_key(rest@),
        ensures
            order_key(p@) == s@,
        decreases rest@.len(),
    {
        match text::split_once(rest.as_str(), '/') {
            None => {
                push_part_key(&mut s, rest.as_str());
                break;
            },
            Some(ab) => {
                proof {
                    found_within(rest@, '/', 0);
                }
                let ghost before = s@;
                push_part_key(&mut s, ab.0.as_str());
                assert(before + (part_key(ab.0@) + parts_key(ab.1@)) =~= s@ + parts_key(ab.1@));
                rest = ab.1;
            },
        }
    }
    s
}

/// The last component of a path starts behind its last slash.
pub proof fn names_start_behind_slashes(dir: Seq<char>, n: Seq<char>)
    requires
        dir.len() == 0 || dir.last() == '/',
        !n.contains('/'),
    ensures
        base_start(dir + n) == dir.len(),
    decreases n.len(),
{
    if n.len() == 0 {
        assert(dir + n =~= dir);
    } else {
        assert(n[n.len() - 1] != '/');
        assert((dir + n).drop_last() =~= dir + n.drop_last());
        assert forall|c: char| n.drop_last().contains(c) implies n.contains(c) by {
            let i = n.drop_last().index_of(c);
            assert(n[i] == c);
        }
        names_start_behind_slashes(dir, n.drop_last());
    }
}

/// The last component of a path is what stands behind its last slash, and slashes at the end of the
/// path do not count. The two dots are no name.
pub proof fn names_stand_behind_the_last_slash(dir: Seq<char>, n: Seq<char>)
    requires
        dir.len() == 0 || dir.last() == '/',
        n.len() > 0,
        !n.contains('/'),
    ensures
        n != seq!['.'] && n != seq!['.', '.'] ==> base_name(dir + n) == Some(n),
        n == seq!['.', '.'] ==> base_name(dir + n) is None,
        base_name((dir + n).push('/')) == base_name(dir + n),
{
    reveal_strlit(".");
    reveal_strlit("..");
    let p = dir + n;
    assert(n[n.len() - 1] != '/');
    assert(p.push('/').drop_last() =~= p);
    if n != seq!['.'] {
        if n.last() == '.' {
            if n.len() == 1 {
                assert(n =~= seq!['.']);
            } else {
                assert(p[p.len() - 2] == n[n.len() - 2]);
            }
        }
        assert(settled(p) == p);
        names_start_behind_slashes(dir, n);
        assert(p.skip(dir.len() as int) =~= n);
        assert("."@ =~= seq!['.']);
        assert(".."@ =~= seq!['.', '.']);
    }
}

/// Paths sort by their components, one after the other. The root sorts before a dot in front, which
/// sorts before two dots, which sort before names; a dot further on does not count.
pub proof fn components_sort_one_by_one(c: Seq<char>, rest: Seq<char>)
    requires
        c.len() > 0,
        !c.contains('/'),
    ensures
        order_key(seq!['/'] + rest) == seq!['\0', '\0'] + parts_key(rest),
        c == seq!['.'] ==> order_key(c + seq!['/'] + rest) == seq!['\0', '\u{1}'] + parts_key(rest)
            && parts_key(c + seq!['/'] + rest) == parts_key(rest),
        c == seq!['.', '.'] ==> order_key(c + seq!['/'] + rest) == seq!['\0', '\u{2}'] + c
            + parts_key(rest),
        c != seq!['.'] && c != seq!['.', '.'] ==> order_key(c + seq!['/'] + rest) == seq![
            '\0',
            '\u{3}',
        ] + c + parts_key(rest),
        c != seq!['.'] ==> parts_key(c + seq!['/'] + rest) == order_key(c + seq!['/'] + rest),
{
    reveal_strlit(".");
    reveal_strlit("..");
    reveal_strlit("\0\0");
    reveal_strlit("\0\u{1}");
    reveal_strlit("\0\u{2}");
    reveal_strlit("\0\u{3}");
    assert("."@ =~= seq!['.']);
    assert(".."@ =~= seq!['.', '.']);
    assert("\0\0"@ =~= seq!['\0', '\0']);
    assert("\0\u{1}"@ =~= seq!['\0', '\u{1}']);
    assert("\0\u{2}"@ =~= seq!['\0', '\u{2}']);
    assert("\0\u{3}"@ =~= seq!['\0', '\u{3}']);
    let none = Seq::<char>::empty();
    let p = c + seq!['/'] + rest;
    let r = seq!['/'] + rest;
    assert(c.contains(c[0]));
    assert(p[0] == c[0]);
    first_component(c, rest);
    first_component(none, rest);
    assert(none + seq!['/'] + rest =~= r);
    assert(text::split_at_first(p, '/') == Some((c, rest)));
    assert(text::split_at_first(r, '/') == Some((none, rest)));
    assert(none + parts_key(rest) =~= parts_key(rest));
    assert(parts_key(r) =~= parts_key(rest));
}

proof fn first_component(c: Seq<char>, rest: Seq<char>)
    requires
        !c.contains('/'),
    ensures
        text::split_at_first(c + seq!['/'] + rest, '/') == Some((c, rest)),
{
    let p = c + seq!['/'] + rest;
    text::split_is_at_the_first(p, '/');
    assert(p[c.len() as int] == '/');
    assert(p.contains('/'));
    let (a, b) = text::split_at_first(p, '/')->Some_0;
    if a.len() < c.len() {
        assert(c[a.len() as int] == p[a.len() as int]);
        assert(c.contains('/'));
    }
    if a.len() > c.len() {
        assert(a[c.len() as int] == p[c.len() as int]);
        assert(a.contains('/'));
    }
    assert(a =~= p.take(c.len() as int));
    assert(c =~= p.take(c.len() as int));
    assert(b =~= p.skip(c.len() as int + 1));
    assert(rest =~= p.skip(c.len() as int + 1));
}

} // verus!
