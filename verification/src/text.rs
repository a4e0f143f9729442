//! Strings as sequences of characters.
use vstd::prelude::*;
use vstd::utf8::*;

verus! {

/// `String::push` appends one character.
pub assume_specification[ String::push ](s: &mut String, c: char)
    ensures
        final(s)@ == old(s)@.push(c),
;

/// The characters of a string.
pub fn chars_of(s: &str) -> (r: Vec<char>)
    ensures
        r@ == s@,
{
    let mut v: Vec<char> = Vec::new();
    for c in it: s.chars()
        invariant
            it.seq() == s@,
            v@ == s@.take(it.index() as int),
    {
        v.push(c);
    }
    v
}

/// The string made of some characters.
pub fn string_of(cs: &[char]) -> (r: String)
    ensures
        r@ == cs@,
{
    let mut s = String::new();
    for i in 0..cs.len()
        invariant
            s@ == cs@.take(i as int),
    {
        s.push(cs[i]);
    }
    s
}

/// Equality of two byte strings.
pub fn bytes_eq(a: &[u8], b: &[u8]) -> (r: bool)
    ensures
        r == (a@ == b@),
{
    if a.len() != b.len() {
        return false;
    }
    for i in 0..a.len()
        invariant
            a.len() == b.len(),
            forall|j: int| 0 <= j < i ==> a@[j] == b@[j],
    {
        if a[i] != b[i] {
            return false;
        }
    }
    assert(a@ =~= b@);
    true
}

/// Two strings with the same bytes are the same string.
pub proof fn encoding_is_injective(a: Seq<char>, b: Seq<char>)
    ensures
        encode_utf8(a) == encode_utf8(b) ==> a == b,
{
    encode_utf8_decode_utf8(a);
    encode_utf8_decode_utf8(b);
}

/// Equality of two strings.
pub fn str_eq(a: &str, b: &str) -> (r: bool)
    ensures
        r == (a@ == b@),
{
    proof {
        encoding_is_injective(a@, b@);
    }
    bytes_eq(a.as_bytes(), b.as_bytes())
}

/// `p` stands in `s` from position `i` on.
pub open spec fn has_at<T>(s: Seq<T>, i: int, p: Seq<T>) -> bool {
    0 <= i && i + p.len() <= s.len() && s.subrange(i, i + p.len()) == p
}

/// `p` stands somewhere in `s`.
pub open spec fn occurs<T>(s: Seq<T>, p: Seq<T>) -> bool {
    exists|i: int| has_at(s, i, p)
}

/// The first position from `i` on where `p` stands in `s`.
pub open spec fn find_from<T>(s: Seq<T>, p: Seq<T>, i: int) -> Option<int>
    decreases s.len() - i + 1,
{
    if i < 0 || i + p.len() > s.len() {
        None
    } else if has_at(s, i, p) {
        Some(i)
    } else {
        find_from(s, p, i + 1)
    }
}

/// What `find_from` finds is the first occurrence.
pub proof fn find_from_first<T>(s: Seq<T>, p: Seq<T>, i: int)
    requires
        0 <= i,
    ensures
        match find_from(s, p, i) {
            Some(j) => i <= j && has_at(s, j, p) && forall|k: int|
                i <= k < j ==> !has_at(s, k, p),
            None => forall|k: int| i <= k ==> !has_at(s, k, p),
        },
    decreases s.len() - i + 1,
{
    if i + p.len() <= s.len() && !has_at(s, i, p) {
        find_from_first(s, p, i + 1);
    }
}

/// `p` occurs in `s` exactly when a search from the start finds it.
pub proof fn occurs_is_found<T>(s: Seq<T>, p: Seq<T>)
    ensures
        occurs(s, p) == (find_from(s, p, 0) is Some),
{
    find_from_first(s, p, 0);
    if find_from(s, p, 0) is Some {
        assert(has_at(s, find_from(s, p, 0)->0, p));
    }
}

/// Whether characters `p` stand in `s` from position `i` on.
pub fn chars_at(s: &[char], i: usize, p: &[char]) -> (r: bool)
    ensures
        r == has_at(s@, i as int, p@),
{
    if i > s.len() || p.len() > s.len() - i {
        return false;
    }
    for j in 0..p.len()
        invariant
            i + p.len() <= s.len(),
            forall|k: int| 0 <= k < j ==> s@[i + k] == p@[k],
    {
        if s[i + j] != p[j] {
            assert(s@.subrange(i as int, i + p@.len())[j as int] != p@[j as int]);
            return false;
        }
    }
    assert(s@.subrange(i as int, i + p@.len()) =~= p@);
    true
}

/// Whether bytes `p` stand in `s` from position `i` on.
pub fn bytes_at(s: &[u8], i: usize, p: &[u8]) -> (r: bool)
    ensures
        r == has_at(s@, i as int, p@),
{
    if i > s.len() || p.len() > s.len() - i {
        return false;
    }
    for j in 0..p.len()
        invariant
            i + p.len() <= s.len(),
            forall|k: int| 0 <= k < j ==> s@[i + k] == p@[k],
    {
        if s[i + j] != p[j] {
            assert(s@.subrange(i as int, i + p@.len())[j as int] != p@[j as int]);
            return false;
        }
    }
    assert(s@.subrange(i as int, i + p@.len()) =~= p@);
    true
}

/// The first position from `start` on where characters `p` stand in `s`.
pub fn find_chars(s: &[char], p: &[char], start: usize) -> (r: Option<usize>)
    ensures
        match r {
            Some(i) => find_from(s@, p@, start as int) == Some(i as int),
            None => find_from(s@, p@, start as int) is None,
        },
{
    let mut i: usize = start;
    while i <= s.len() && p.len() <= s.len() - i
        invariant
            start <= i,
            find_from(s@, p@, start as int) == find_from(s@, p@, i as int),
        decreases s.len() - i + 1,
    {
        if chars_at(s, i, p) {
            return Some(i);
        }
        proof {
            if i == s.len() {
                assert(s@.subrange(i as int, i as int) =~= p@);
            }
        }
        i = i + 1;
    }
    None
}

/// The first position where bytes `p` stand in `s`.
pub fn find_bytes(s: &[u8], p: &[u8]) -> (r: Option<usize>)
    ensures
        match r {
            Some(i) => find_from(s@, p@, 0) == Some(i as int),
            None => find_from(s@, p@, 0) is None,
        },
{
    let mut i: usize = 0;
    while i <= s.len() && p.len() <= s.len() - i
        invariant
            find_from(s@, p@, 0) == find_from(s@, p@, i as int),
        decreases s.len() - i + 1,
    {
        if bytes_at(s, i, p) {
            return Some(i);
        }
        proof {
            if i == s.len() {
                assert(s@.subrange(i as int, i as int) =~= p@);
            }
        }
        i = i + 1;
    }
    None
}

/// Whether `p` occurs in `s`.
pub fn contains(s: &str, p: &str) -> (r: bool)
    ensures
        r == occurs(s@, p@),
{
    proof {
        occurs_is_found(s@, p@);
    }
    let cs = chars_of(s);
    let ps = chars_of(p);
    find_chars(cs.as_slice(), ps.as_slice(), 0).is_some()
}

/// Whether `s` begins with `p`.
pub fn starts_with(s: &str, p: &str) -> (r: bool)
    ensures
        r == p@.is_prefix_of(s@),
{
    let cs = chars_of(s);
    let ps = chars_of(p);
    chars_at(cs.as_slice(), 0, ps.as_slice())
}

/// Whether `s` ends with `p`.
pub fn ends_with(s: &str, p: &str) -> (r: bool)
    ensures
        r == p@.is_suffix_of(s@),
{
    let cs = chars_of(s);
    let ps = chars_of(p);
    if ps.len() > cs.len() {
        return false;
    }
    chars_at(cs.as_slice(), cs.len() - ps.len(), ps.as_slice())
}

/// The characters of `s` between two positions.
pub fn part(s: &[char], from: usize, to: usize) -> (r: Vec<char>)
    requires
        from <= to <= s@.len(),
    ensures
        r@ == s@.subrange(from as int, to as int),
{
    let mut v: Vec<char> = Vec::new();
    let mut i: usize = from;
    while i < to
        invariant
            from <= i <= to <= s@.len(),
            v@ == s@.subrange(from as int, i as int),
        decreases to - i,
    {
        v.push(s[i]);
        i = i + 1;
    }
    v
}

/// Appends characters of `s` between two positions to `out`.
pub fn push_part(out: &mut Vec<char>, s: &[char], from: usize, to: usize)
    requires
        from <= to <= s@.len(),
    ensures
        final(out)@ == old(out)@ + s@.subrange(from as int, to as int),
{
    let mut i: usize = from;
    while i < to
        invariant
            from <= i <= to <= s@.len(),
            out@ == old(out)@ + s@.subrange(from as int, i as int),
        decreases to - i,
    {
        out.push(s[i]);
        i = i + 1;
    }
}

/// `s` without the prefix `p`, if it has it.
pub open spec fn without_prefix(s: Seq<char>, p: Seq<char>) -> Option<Seq<char>> {
    if p.is_prefix_of(s) {
        Some(s.skip(p.len() as int))
    } else {
        None
    }
}

/// `s` without the prefix `p`, if it has it.
pub fn strip_prefix(s: &str, p: &str) -> (r: Option<String>)
    ensures
        match r {
            Some(t) => without_prefix(s@, p@) == Some(t@),
            None => without_prefix(s@, p@) is None,
        },
{
    if !starts_with(s, p) {
        return None;
    }
    let cs = chars_of(s);
    let n: usize = chars_of(p).len();
    assert(s@.skip(n as int) =~= s@.subrange(n as int, s@.len() as int));
    let t = part(cs.as_slice(), n, cs.len());
    Some(string_of(t.as_slice()))
}

/// `s` without the suffix `p`, if it has it.
pub open spec fn without_suffix(s: Seq<char>, p: Seq<char>) -> Option<Seq<char>> {
    if p.is_suffix_of(s) {
        Some(s.take(s.len() - p.len()))
    } else {
        None
    }
}

/// `s` without the suffix `p`, if it has it.
pub fn strip_suffix(s: &str, p: &str) -> (r: Option<String>)
    ensures
        match r {
            Some(t) => without_suffix(s@, p@) == Some(t@),
            None => without_suffix(s@, p@) is None,
        },
{
    if !ends_with(s, p) {
        return None;
    }
    let cs = chars_of(s);
    let n: usize = chars_of(p).len();
    let t = part(cs.as_slice(), 0, cs.len() - n);
    Some(string_of(t.as_slice()))
}

/// `s` without the suffix `p`, as often as it ends in it.
pub open spec fn without_suffixes(s: Seq<char>, p: Seq<char>) -> Seq<char>
    decreases s.len(),
{
    if p.len() > 0 && p.is_suffix_of(s) {
        without_suffixes(s.take(s.len() - p.len()), p)
    } else {
        s
    }
}

/// `s` without the suffix `p`, as often as it ends in it.
pub fn trim_end_matches(s: &str, p: &str) -> (r: String)
    ensures
        r@ == without_suffixes(s@, p@),
{
    let n: usize = chars_of(p).len();
    let mut t = s.to_owned();
    while n > 0 && ends_with(t.as_str(), p)
        invariant
            n == p@.len(),
            without_suffixes(t@, p@) == without_suffixes(s@, p@),
        decreases t@.len(),
    {
        let cs = chars_of(t.as_str());
        t = string_of(part(cs.as_slice(), 0, cs.len() - n).as_slice());
        assert(t@ =~= cs@.take(cs@.len() - n));
    }
    t
}

/// `to` before, between and after the characters of `s`.
pub open spec fn spread(s: Seq<char>, to: Seq<char>) -> Seq<char>
    decreases s.len(),
{
    if s.len() == 0 {
        to
    } else {
        spread(s.drop_last(), to) + seq![s.last()] + to
    }
}

/// Every occurrence of `from` in `s`, found from left to right without overlap, replaced by
/// `to`. The empty string occurs at both ends and between any two characters.
pub open spec fn replaced(s: Seq<char>, from: Seq<char>, to: Seq<char>) -> Seq<char>
    decreases s.len(),
{
    if from.len() == 0 {
        spread(s, to)
    } else {
        match find_from(s, from, 0) {
            None => s,
            Some(i) => if 0 <= i && i + from.len() <= s.len() {
                s.take(i) + to + replaced(s.skip(i + from.len()), from, to)
            } else {
                s
            },
        }
    }
}

/// Searching in the rest of a string is searching on in the string.
proof fn find_in_rest<T>(s: Seq<T>, p: Seq<T>, a: int, i: int)
    requires
        0 <= a <= s.len(),
        0 <= i,
    ensures
        match find_from(s, p, a + i) {
            Some(j) => find_from(s.skip(a), p, i) == Some(j - a),
            None => find_from(s.skip(a), p, i) is None,
        },
    decreases s.len() - i + 1,
{
    let t = s.skip(a);
    if a + i + p.len() <= s.len() {
        assert(t.subrange(i, i + p.len()) =~= s.subrange(a + i, a + i + p.len()));
        if !has_at(s, a + i, p) {
            find_in_rest(s, p, a, i + 1);
        }
    }
}

/// Replaces every occurrence of `from` in `s` by `to`.
pub fn replace(s: &str, from: &str, to: &str) -> (r: String)
    ensures
        r@ == replaced(s@, from@, to@),
{
    let cs = chars_of(s);
    let fs = chars_of(from);
    let ts = chars_of(to);
    let mut out: Vec<char> = Vec::new();
    if fs.len() == 0 {
        push_part(&mut out, ts.as_slice(), 0, ts.len());
        assert(ts@.subrange(0, ts@.len() as int) =~= to@);
        assert(s@.take(0) =~= Seq::<char>::empty());
        for i in 0..cs.len()
            invariant
                cs@ == s@,
                ts@ == to@,
                out@ == spread(s@.take(i as int), to@),
        {
            assert(s@.take(i + 1).drop_last() =~= s@.take(i as int));
            out.push(cs[i]);
            push_part(&mut out, ts.as_slice(), 0, ts.len());
            assert(ts@.subrange(0, ts@.len() as int) =~= to@);
            assert(out@ =~= spread(s@.take(i as int), to@) + seq![s@[i as int]] + to@);
        }
        assert(s@.take(s@.len() as int) =~= s@);
        return string_of(out.as_slice());
    }
    let mut i: usize = 0;
    let n: usize = cs.len();
    assert(s@.skip(0) =~= s@);
    loop
        invariant
            n == s@.len(),
            cs@ == s@,
            fs@ == from@,
            ts@ == to@,
            from@.len() > 0,
            i <= s@.len(),
            replaced(s@, from@, to@) == out@ + replaced(s@.skip(i as int), from@, to@),
        ensures
            find_from(s@, from@, i as int) is None,
        decreases s@.len() - i,
    {
        let j: usize = match find_chars(cs.as_slice(), fs.as_slice(), i) {
            Some(j) => j,
            None => {
                break;
            },
        };
        proof {
            find_from_first(s@, from@, i as int);
            find_in_rest(s@, from@, i as int, 0);
            assert(has_at(s@, j as int, from@));
            let rest = s@.skip(i as int);
            assert(rest.take(j - i) =~= s@.subrange(i as int, j as int));
            assert(rest.skip(j - i + from@.len()) =~= s@.skip(j + from@.len()));
        }
        let ghost before = out@;
        let ghost piece = s@.subrange(i as int, j as int);
        push_part(&mut out, cs.as_slice(), i, j);
        push_part(&mut out, ts.as_slice(), 0, ts.len());
        assert(ts@.subrange(0, ts@.len() as int) =~= to@);
        i = j + fs.len();
        assert(out@ + replaced(s@.skip(i as int), from@, to@) =~= before + (piece + to@ + replaced(
            s@.skip(i as int),
            from@,
            to@,
        )));
    }
    proof {
        find_in_rest(s@, from@, i as int, 0);
        assert(s@.skip(i as int) =~= s@.subrange(i as int, s@.len() as int));
    }
    push_part(&mut out, cs.as_slice(), i, n);
    string_of(out.as_slice())
}

/// The characters with Unicode's `White_Space` property.
pub open spec fn white_space(c: char) -> bool {
    let u = c as u32;
    ||| 0x09 <= u <= 0x0D
    ||| u == 0x20 || u == 0x85 || u == 0xA0 || u == 0x1680
    ||| 0x2000 <= u <= 0x200A
    ||| u == 0x2028 || u == 0x2029 || u == 0x202F || u == 0x205F || u == 0x3000
}

/// Whether a character is white space.
pub fn is_white_space(c: char) -> (r: bool)
    ensures
        r == white_space(c),
{
    let u: u32 = c as u32;
    (0x09 <= u && u <= 0x0D) || u == 0x20 || u == 0x85 || u == 0xA0 || u == 0x1680 || (0x2000 <= u
        && u <= 0x200A) || u == 0x2028 || u == 0x2029 || u == 0x202F || u == 0x205F || u == 0x3000
}

/// How many characters at the start of `s` are white space (`white`) or are not (`!white`).
pub open spec fn lead(s: Seq<char>, white: bool) -> nat
    decreases s.len(),
{
    if s.len() > 0 && white_space(s[0]) == white {
        1 + lead(s.drop_first(), white)
    } else {
        0
    }
}

/// How many characters at the end of `s` are white space.
pub open spec fn trail(s: Seq<char>) -> nat
    decreases s.len(),
{
    if s.len() > 0 && white_space(s.last()) {
        1 + trail(s.drop_last())
    } else {
        0
    }
}

proof fn lead_bound(s: Seq<char>, white: bool)
    ensures
        lead(s, white) <= s.len(),
        forall|i: int| 0 <= i < lead(s, white) ==> white_space(s[i]) == white,
        lead(s, white) < s.len() ==> white_space(s[lead(s, white) as int]) != white,
    decreases s.len(),
{
    if s.len() > 0 && white_space(s[0]) == white {
        let t = s.drop_first();
        lead_bound(t, white);
        assert(forall|i: int| 0 <= i < t.len() ==> t[i] == s[i + 1]);
        assert forall|i: int| 0 <= i < lead(s, white) implies white_space(s[i]) == white by {
            if i > 0 {
                assert(t[i - 1] == s[i]);
            }
        }
    }
}

proof fn trail_bound(s: Seq<char>)
    ensures
        trail(s) <= s.len(),
    decreases s.len(),
{
    if s.len() > 0 && white_space(s.last()) {
        trail_bound(s.drop_last());
    }
}

/// How many characters of `s` from `from` on are white space (`white`) or are not.
pub fn lead_from(s: &[char], from: usize, white: bool) -> (n: usize)
    requires
        from <= s@.len(),
    ensures
        n == lead(s@.skip(from as int), white),
        from + n <= s@.len(),
{
    let mut i: usize = from;
    while i < s.len() && is_white_space(s[i]) == white
        invariant
            from <= i <= s@.len(),
            lead(s@.skip(from as int), white) == i - from + lead(s@.skip(i as int), white),
        decreases s.len() - i,
    {
        assert(s@.skip(i as int).drop_first() =~= s@.skip(i + 1));
        i = i + 1;
    }
    proof {
        lead_bound(s@.skip(from as int), white);
    }
    i - from
}

/// `s` without white space at its start.
pub open spec fn trimmed_start(s: Seq<char>) -> Seq<char> {
    s.skip(lead(s, true) as int)
}

/// `s` without white space at its end.
pub open spec fn trimmed_end(s: Seq<char>) -> Seq<char> {
    s.take(s.len() - trail(s))
}

/// `s` without white space at either end.
pub open spec fn trimmed(s: Seq<char>) -> Seq<char> {
    trimmed_end(trimmed_start(s))
}

/// Removes white space at the start.
pub fn trim_start(s: &str) -> (r: String)
    ensures
        r@ == trimmed_start(s@),
{
    let cs = chars_of(s);
    assert(s@.skip(0) =~= s@);
    let n: usize = lead_from(cs.as_slice(), 0, true);
    let t = part(cs.as_slice(), n, cs.len());
    assert(t@ =~= s@.skip(n as int));
    string_of(t.as_slice())
}

/// Removes white space at both ends.
pub fn trim(s: &str) -> (r: String)
    ensures
        r@ == trimmed(s@),
{
    let t = trim_start(s);
    let cs = chars_of(t.as_str());
    let mut n: usize = cs.len();
    assert(t@.take(n as int) =~= t@);
    while n > 0 && is_white_space(cs[n - 1])
        invariant
            cs@ == t@,
            n <= cs@.len(),
            t@.len() - trail(t@) == n - trail(t@.take(n as int)),
        decreases n,
    {
        assert(t@.take(n as int).drop_last() =~= t@.take(n - 1));
        n = n - 1;
    }
    let u = part(cs.as_slice(), 0, n);
    string_of(u.as_slice())
}

/// The words of `s`: its longest runs of characters that are not white space.
pub open spec fn words(s: Seq<char>) -> Seq<Seq<char>>
    decreases s.len(),
{
    let t = trimmed_start(s);
    let n = lead(t, false) as int;
    if t.len() == 0 || n == 0 || t.len() > s.len() || n > t.len() {
        Seq::empty()
    } else {
        seq![t.take(n)] + words(t.skip(n))
    }
}

/// The words of a string.
pub fn split_whitespace(s: &str) -> (r: Vec<String>)
    ensures
        r.deep_view() == words(s@),
{
    let cs = chars_of(s);
    let n: usize = cs.len();
    let mut out: Vec<String> = Vec::new();
    let mut i: usize = 0;
    assert(s@.skip(0) =~= s@);
    assert(out.deep_view() =~= Seq::<Seq<char>>::empty());
    loop
        invariant
            cs@ == s@,
            n == s@.len(),
            i <= s@.len(),
            words(s@) =~= out.deep_view() + words(s@.skip(i as int)),
        ensures
            words(s@.skip(i as int)) =~= Seq::<Seq<char>>::empty(),
        decreases s@.len() - i,
    {
        let a: usize = lead_from(cs.as_slice(), i, true);
        let b: usize = lead_from(cs.as_slice(), i + a, false);
        let ghost rest = s@.skip(i as int);
        let ghost t = trimmed_start(rest);
        proof {
            lead_bound(rest, true);
            lead_bound(t, false);
            assert(t =~= s@.skip(i + a));
        }
        if b == 0 {
            break;
        }
        let w = part(cs.as_slice(), i + a, i + a + b);
        proof {
            assert(w@ =~= t.take(b as int));
            assert(t.skip(b as int) =~= s@.skip(i + a + b));
        }
        let ghost before = out.deep_view();
        let word = string_of(w.as_slice());
        out.push(word);
        assert(out.deep_view() =~= before.push(w@));
        i = i + a + b;
    }
    out
}

/// The first position from `i` on of character `c` in `s`.
pub open spec fn char_from(s: Seq<char>, c: char, i: int) -> Option<int>
    decreases s.len() - i,
{
    if i < 0 || i >= s.len() {
        None
    } else if s[i] == c {
        Some(i)
    } else {
        char_from(s, c, i + 1)
    }
}

/// The first position from `from` on of character `c` in `s`.
pub fn find_char(s: &[char], c: char, from: usize) -> (r: Option<usize>)
    requires
        from <= s@.len(),
    ensures
        match r {
            Some(i) => char_from(s@, c, from as int) == Some(i as int) && from <= i < s@.len()
                && s@[i as int] == c,
            None => char_from(s@, c, from as int) is None,
        },
{
    let mut i: usize = from;
    while i < s.len()
        invariant
            from <= i <= s@.len(),
            char_from(s@, c, from as int) == char_from(s@, c, i as int),
        decreases s.len() - i,
    {
        if s[i] == c {
            return Some(i);
        }
        i = i + 1;
    }
    None
}

/// The two sides of the first `c` in `s`.
pub open spec fn split_at_first(s: Seq<char>, c: char) -> Option<(Seq<char>, Seq<char>)> {
    match char_from(s, c, 0) {
        None => None,
        Some(i) => Some((s.take(i), s.skip(i + 1))),
    }
}

/// The two sides of the first `c` in `s`.
pub fn split_once(s: &str, c: char) -> (r: Option<(String, String)>)
    ensures
        match r {
            Some(p) => split_at_first(s@, c) == Some((p.0@, p.1@)),
            None => split_at_first(s@, c) is None,
        },
{
    let cs = chars_of(s);
    let n: usize = cs.len();
    match find_char(cs.as_slice(), c, 0) {
        None => None,
        Some(i) => {
            let a = part(cs.as_slice(), 0, i);
            let b = part(cs.as_slice(), i + 1, n);
            assert(b@ =~= s@.skip(i + 1));
            Some((string_of(a.as_slice()), string_of(b.as_slice())))
        },
    }
}

/// A line without the carriage return that stood before its line feed.
pub open spec fn without_cr(l: Seq<char>) -> Seq<char> {
    if l.len() > 0 && l.last() == '\r' {
        l.drop_last()
    } else {
        l
    }
}

/// The lines of `s`, each ended by a line feed or by a carriage return and a line feed; the end
/// of the last line may be missing.
pub open spec fn lines_of(s: Seq<char>) -> Seq<Seq<char>>
    decreases s.len(),
{
    if s.len() == 0 {
        Seq::empty()
    } else {
        match char_from(s, '\n', 0) {
            None => seq![s],
            Some(i) => if 0 <= i < s.len() {
                seq![without_cr(s.take(i))] + lines_of(s.skip(i + 1))
            } else {
                seq![s]
            },
        }
    }
}

/// Looking for a character in the rest of a string is looking on in the string.
proof fn char_in_rest(s: Seq<char>, c: char, a: int, i: int)
    requires
        0 <= a <= s.len(),
        0 <= i,
    ensures
        match char_from(s, c, a + i) {
            Some(j) => char_from(s.skip(a), c, i) == Some(j - a),
            None => char_from(s.skip(a), c, i) is None,
        },
    decreases s.len() - i,
{
    if a + i < s.len() && s[a + i] != c {
        char_in_rest(s, c, a, i + 1);
    }
}

/// The lines of a string.
pub fn lines(s: &str) -> (r: Vec<String>)
    ensures
        r.deep_view() == lines_of(s@),
{
    let cs = chars_of(s);
    let n: usize = cs.len();
    let mut out: Vec<String> = Vec::new();
    let mut i: usize = 0;
    assert(s@.skip(0) =~= s@);
    assert(out.deep_view() =~= Seq::<Seq<char>>::empty());
    while i < n
        invariant
            cs@ == s@,
            n == s@.len(),
            i <= n,
            lines_of(s@) =~= out.deep_view() + lines_of(s@.skip(i as int)),
        decreases n - i,
    {
        let ghost rest = s@.skip(i as int);
        let ghost before = out.deep_view();
        proof {
            char_in_rest(s@, '\n', i as int, 0);
        }
        match find_char(cs.as_slice(), '\n', i) {
            None => {
                let l = part(cs.as_slice(), i, n);
                assert(l@ =~= rest);
                let line = string_of(l.as_slice());
                out.push(line);
                assert(out.deep_view() =~= before.push(rest));
                i = n;
                assert(lines_of(s@.skip(n as int)) =~= Seq::<Seq<char>>::empty());
            },
            Some(j) => {
                let e: usize = if j > i && cs[j - 1] == '\r' {
                    j - 1
                } else {
                    j
                };
                let l = part(cs.as_slice(), i, e);
                assert(l@ =~= without_cr(rest.take(j - i)));
                let line = string_of(l.as_slice());
                out.push(line);
                assert(out.deep_view() =~= before.push(l@));
                assert(rest.skip(j - i + 1) =~= s@.skip(j + 1));
                i = j + 1;
            },
        }
    }
    assert(lines_of(s@.skip(i as int)) =~= Seq::<Seq<char>>::empty());
    out
}

/// The decimal digit of a number below ten.
pub open spec fn digit(d: nat) -> char {
    (48 + d) as char
}

/// A number in decimal.
pub open spec fn decimal(n: nat) -> Seq<char>
    decreases n,
{
    if n < 10 {
        seq![digit(n)]
    } else {
        decimal(n / 10).push(digit(n % 10))
    }
}

/// An integer in decimal.
pub open spec fn signed_decimal(n: int) -> Seq<char> {
    if n < 0 {
        seq!['-'] + decimal((-n) as nat)
    } else {
        decimal(n as nat)
    }
}

/// Writes a number in decimal.
pub fn u64_text(n: u64) -> (r: String)
    ensures
        r@ == decimal(n as nat),
    decreases n,
{
    let d: u8 = (n % 10) as u8;
    let c: char = (48u8 + d) as char;
    if n < 10 {
        let mut s = String::new();
        s.push(c);
        s
    } else {
        let mut s = u64_text(n / 10);
        s.push(c);
        s
    }
}

/// Writes a number in decimal.
pub fn usize_text(n: usize) -> (r: String)
    ensures
        r@ == decimal(n as nat),
{
    u64_text(n as u64)
}

/// Writes an integer in decimal.
pub fn i64_text(n: i64) -> (r: String)
    ensures
        r@ == signed_decimal(n as int),
{
    if n < 0 {
        let mut s = String::new();
        s.push('-');
        let m: u64 = if n == i64::MIN {
            0x8000_0000_0000_0000u64
        } else {
            (-n) as u64
        };
        s.append(u64_text(m).as_str());
        s
    } else {
        u64_text(n as u64)
    }
}

/// The texts of all characters, one behind the other.
pub open spec fn each_char(s: Seq<char>, f: spec_fn(char) -> Seq<char>) -> Seq<char>
    decreases s.len(),
{
    if s.len() == 0 {
        Seq::empty()
    } else {
        each_char(s.drop_last(), f) + f(s.last())
    }
}

/// Some texts with a separator between them.
pub open spec fn joined(items: Seq<Seq<char>>, sep: Seq<char>) -> Seq<char>
    decreases items.len(),
{
    if items.len() == 0 {
        Seq::empty()
    } else if items.len() == 1 {
        items[0]
    } else {
        joined(items.drop_last(), sep) + sep + items.last()
    }
}

/// Writes some texts with a separator between them.
pub fn join(items: &Vec<String>, sep: &str) -> (r: String)
    ensures
        r@ == joined(items.deep_view(), sep@),
{
    let mut s = String::new();
    let ghost all = items.deep_view();
    for i in 0..items.len()
        invariant
            all == items.deep_view(),
            s@ == joined(all.take(i as int), sep@),
    {
        if i > 0 {
            s.append(sep);
        }
        s.append(items[i].as_str());
        proof {
            assert(all.take(i + 1).drop_last() =~= all.take(i as int));
            assert(all.take(i + 1).last() == all[i as int]);
        }
    }
    assert(all.take(all.len() as int) =~= all);
    s
}

/// The number that decimal digits stand for. No digits, or another character, stand for none.
pub open spec fn digits_value(s: Seq<char>) -> Option<nat>
    decreases s.len(),
{
    if s.len() == 0 || !('0' <= s.last() <= '9') {
        None
    } else {
        let d = (s.last() as nat - '0' as nat) as nat;
        if s.len() == 1 {
            Some(d)
        } else {
            match digits_value(s.drop_last()) {
                Some(n) => Some(10 * n + d),
                None => None,
            }
        }
    }
}

/// More digits stand for no smaller number.
proof fn longer_is_no_less(s: Seq<char>, k: int)
    requires
        0 < k <= s.len(),
        digits_value(s) is Some,
    ensures
        digits_value(s.take(k)) is Some,
        digits_value(s.take(k))->Some_0 <= digits_value(s)->Some_0,
    decreases s.len() - k,
{
    if k == s.len() {
        assert(s.take(k) =~= s);
    } else {
        longer_is_no_less(s, k + 1);
        assert(s.take(k + 1).drop_last() =~= s.take(k));
    }
}

/// Reads the digits from a position on as a number, as far as it is at most `max`.
pub fn read_digits(cs: &[char], from: usize, max: u64) -> (r: Option<u64>)
    requires
        from <= cs@.len(),
    ensures
        match r {
            Some(n) => digits_value(cs@.skip(from as int)) == Some(n as nat) && n <= max,
            None => match digits_value(cs@.skip(from as int)) {
                Some(n) => n > max,
                None => true,
            },
        },
{
    let ghost s = cs@.skip(from as int);
    let n: usize = cs.len();
    if from == n {
        return None;
    }
    let mut v: u64 = 0;
    let mut i: usize = from;
    while i < n
        invariant
            n == cs@.len(),
            from <= i <= n,
            from < n,
            s == cs@.skip(from as int),
            v <= max,
            i > from ==> digits_value(s.take(i - from)) == Some(v as nat),
            i == from ==> v == 0,
        decreases n - i,
    {
        let c = cs[i];
        let ghost k = i - from;
        proof {
            assert(s.take(k + 1).drop_last() =~= s.take(k));
            assert(s.take(k + 1).last() == c);
            if digits_value(s) is Some {
                longer_is_no_less(s, k + 1);
            }
        }
        if !('0' <= c && c <= '9') {
            return None;
        }
        let d: u64 = (c as u32 - 48) as u64;
        assert(digits_value(s.take(k + 1)) == Some((10 * v + d) as nat));
        if v > (u64::MAX - d) / 10 {
            return None;
        }
        let next: u64 = 10 * v + d;
        if next > max {
            return None;
        }
        v = next;
        i += 1;
    }
    assert(s.take(n - from) =~= s);
    Some(v)
}

/// A number in decimal is digits, which are read as that number.
pub proof fn decimal_value(n: nat)
    ensures
        digits_value(decimal(n)) == Some(n),
        decimal(n).len() > 0,
        forall|i: int| 0 <= i < decimal(n).len() ==> '0' <= #[trigger] decimal(n)[i] <= '9',
    decreases n,
{
    if n >= 10 {
        decimal_value(n / 10);
        let d = decimal(n);
        assert(d.drop_last() =~= decimal(n / 10));
        assert forall|i: int| 0 <= i < d.len() implies '0' <= #[trigger] d[i] <= '9' by {
            if i < d.len() - 1 {
                assert(d[i] == decimal(n / 10)[i]);
            }
        }
    }
}

/// A text is parted at the first place where a character stands: what is before it does not hold
/// it.
pub proof fn split_is_at_the_first(s: Seq<char>, c: char)
    ensures
        split_at_first(s, c) is Some <==> s.contains(c),
        split_at_first(s, c) matches Some((a, b)) ==> !a.contains(c) && s == a + seq![c] + b,
{
    char_from_first(s, c, 0);
    if let Some(i) = char_from(s, c, 0) {
        let a = s.take(i);
        let b = s.skip(i + 1);
        assert(s =~= a + seq![c] + b);
        if a.contains(c) {
            let k = choose|k: int| 0 <= k < a.len() && a[k] == c;
            assert(s[k] == c);
        }
        assert(s[i] == c);
    } else if s.contains(c) {
        let k = choose|k: int| 0 <= k < s.len() && s[k] == c;
        assert(s[k] == c);
    }
}

proof fn char_from_first(s: Seq<char>, c: char, i: int)
    requires
        0 <= i,
    ensures
        match char_from(s, c, i) {
            Some(k) => i <= k < s.len() && s[k] == c && forall|j: int| i <= j < k ==> s[j] != c,
            None => forall|j: int| i <= j < s.len() ==> s[j] != c,
        },
    decreases s.len() - i,
{
    if i < s.len() && s[i] != c {
        char_from_first(s, c, i + 1);
    }
}

proof fn lead_is_white(s: Seq<char>, white: bool)
    ensures
        lead(s, white) <= s.len(),
        forall|i: int| 0 <= i < lead(s, white) ==> white_space(#[trigger] s[i]) == white,
        lead(s, white) < s.len() ==> white_space(s[lead(s, white) as int]) != white,
    decreases s.len(),
{
    if s.len() > 0 && white_space(s[0]) == white {
        let t = s.drop_first();
        lead_is_white(t, white);
        assert forall|i: int| 0 <= i < lead(s, white) implies white_space(#[trigger] s[i])
            == white by {
            if i > 0 {
                assert(t[i - 1] == s[i]);
            }
        }
        if lead(s, white) < s.len() {
            assert(t[lead(t, white) as int] == s[lead(s, white) as int]);
        }
    }
}

proof fn trail_is_white(s: Seq<char>)
    ensures
        trail(s) <= s.len(),
        forall|i: int| s.len() - trail(s) <= i < s.len() ==> white_space(#[trigger] s[i]),
        trail(s) < s.len() ==> !white_space(s[s.len() - trail(s) - 1]),
    decreases s.len(),
{
    if s.len() > 0 && white_space(s.last()) {
        let t = s.drop_last();
        trail_is_white(t);
        assert forall|i: int| s.len() - trail(s) <= i < s.len() implies white_space(
            #[trigger] s[i],
        ) by {
            if i < t.len() {
                assert(t[i] == s[i]);
            }
        }
    }
}

/// All characters of a text are white space.
pub open spec fn all_white(s: Seq<char>) -> bool {
    forall|i: int| 0 <= i < s.len() ==> white_space(#[trigger] s[i])
}

/// Trimming takes white space off both ends, all of it and nothing else.
pub proof fn trimming_takes_the_ends(s: Seq<char>)
    ensures
        trimmed(s).len() > 0 ==> !white_space(trimmed(s)[0]) && !white_space(trimmed(s).last()),
        exists|p: Seq<char>, q: Seq<char>|
            #![trigger all_white(p), all_white(q)]
            all_white(p) && all_white(q) && s == p + trimmed(s) + q,
{
    let t = trimmed_start(s);
    lead_is_white(s, true);
    trail_is_white(t);
    let n = lead(s, true) as int;
    let r = trimmed(s);
    let p = s.take(n);
    let q = t.skip(t.len() - trail(t));
    if r.len() > 0 {
        assert(r[0] == t[0]);
        assert(t[0] == s[n]);
        assert(r.last() == t[t.len() - trail(t) - 1]);
    }
    assert forall|i: int| 0 <= i < p.len() implies white_space(#[trigger] p[i]) by {
        assert(p[i] == s[i]);
    }
    assert forall|i: int| 0 <= i < q.len() implies white_space(#[trigger] q[i]) by {
        assert(q[i] == t[t.len() - trail(t) + i]);
    }
    assert(s =~= p + r + q);
    assert(all_white(p) && all_white(q));
}

proof fn lead_of_word(w: Seq<char>, rest: Seq<char>)
    requires
        forall|i: int| 0 <= i < w.len() ==> !white_space(#[trigger] w[i]),
        rest.len() > 0 ==> white_space(rest[0]),
    ensures
        lead(w + rest, false) == w.len(),
    decreases w.len(),
{
    let s = w + rest;
    if w.len() > 0 {
        assert(s[0] == w[0]);
        assert(s.drop_first() =~= w.drop_first() + rest);
        assert forall|i: int| 0 <= i < w.drop_first().len() implies !white_space(
            #[trigger] w.drop_first()[i],
        ) by {
            assert(w.drop_first()[i] == w[i + 1]);
        }
        lead_of_word(w.drop_first(), rest);
    } else {
        assert(s =~= rest);
    }
}

/// White space in front does not count for the words of a text, and a word in front of white space
/// is the first: the words are the longest pieces without white space, in order.
pub proof fn words_are_between_white_space(s: Seq<char>, c: char, w: Seq<char>, rest: Seq<char>)
    requires
        white_space(c),
        w.len() > 0,
        forall|i: int| 0 <= i < w.len() ==> !white_space(#[trigger] w[i]),
        rest.len() > 0 ==> white_space(rest[0]),
    ensures
        words(Seq::empty()) == Seq::<Seq<char>>::empty(),
        words(seq![c] + s) == words(s),
        words(w + rest) == seq![w] + words(rest),
{
    let e = Seq::<char>::empty();
    assert(trimmed_start(e).len() == 0);
    let s1 = seq![c] + s;
    assert(s1.drop_first() =~= s);
    lead_is_white(s, true);
    assert(trimmed_start(s1) =~= trimmed_start(s));
    lead_is_white(trimmed_start(s), false);
    let x = w + rest;
    assert(x[0] == w[0]);
    assert(lead(x, true) == 0);
    assert(trimmed_start(x) =~= x);
    lead_of_word(w, rest);
    assert(x.take(w.len() as int) =~= w);
    assert(x.skip(w.len() as int) =~= rest);
}

/// The lines of a text are parted by line feeds; a carriage return before one belongs to it, and a
/// line feed at the end opens no line.
pub proof fn lines_are_between_feeds(l: Seq<char>, rest: Seq<char>)
    requires
        !l.contains('\n'),
    ensures
        lines_of(Seq::empty()) == Seq::<Seq<char>>::empty(),
        l.len() > 0 ==> lines_of(l) == seq![l],
        lines_of(l + seq!['\r', '\n'] + rest) == seq![l] + lines_of(rest),
        (l.len() > 0 ==> l.last() != '\r') ==> lines_of(l + seq!['\n'] + rest) == seq![l]
            + lines_of(rest),
{
    char_from_first(l, '\n', 0);
    if char_from(l, '\n', 0) is Some {
        let k = char_from(l, '\n', 0)->Some_0;
        assert(l.contains(l[k]));
    }
    let a = l + seq!['\n'] + rest;
    let b = l + seq!['\r', '\n'] + rest;
    char_from_first(a, '\n', 0);
    char_from_first(b, '\n', 0);
    let n = l.len() as int;
    assert(a[n] == '\n');
    assert(b[n] == '\r' && b[n + 1] == '\n');
    assert forall|j: int| 0 <= j < n implies a[j] != '\n' && b[j] != '\n' by {
        assert(a[j] == l[j] && b[j] == l[j]);
        assert(l.contains(l[j]));
    }
    assert(char_from(a, '\n', 0) == Some(n));
    assert(char_from(b, '\n', 0) == Some(n + 1));
    assert(a.take(n) =~= l);
    assert(a.skip(n + 1) =~= rest);
    assert(b.take(n + 1) =~= l.push('\r'));
    assert(l.push('\r').drop_last() =~= l);
    assert(b.skip(n + 2) =~= rest);
}

/// Joined texts stand one behind the other, with the separator between each two.
pub proof fn joining_puts_between(items: Seq<Seq<char>>, sep: Seq<char>, x: Seq<char>)
    ensures
        joined(Seq::empty(), sep) == Seq::<char>::empty(),
        joined(seq![x], sep) == x,
        items.len() > 0 ==> joined(items.push(x), sep) == joined(items, sep) + sep + x,
{
    if items.len() > 0 {
        assert(items.push(x).drop_last() =~= items);
    }
}

/// The first occurrence of a pattern gives way, and so does each in what follows.
pub proof fn replacing_goes_on(s: Seq<char>, from: Seq<char>, to: Seq<char>, i: int)
    requires
        from.len() > 0,
        has_at(s, i, from),
        forall|k: int| 0 <= k < i ==> !has_at(s, k, from),
    ensures
        replaced(s, from, to) == s.take(i) + to + replaced(s.skip(i + from.len()), from, to),
{
    find_from_first(s, from, 0);
    let k = find_from(s, from, 0);
    assert(k is Some);
    assert(k == Some(i));
}

/// Where a pattern does not stand, nothing gives way.
pub proof fn replacing_leaves_others(s: Seq<char>, from: Seq<char>, to: Seq<char>)
    requires
        from.len() > 0,
        !occurs(s, from),
    ensures
        replaced(s, from, to) == s,
{
    occurs_is_found(s, from);
}

/// A character that gives way to another does so wherever it stands, and all others stay.
pub proof fn replacing_a_character(s: Seq<char>, c: char, d: char)
    ensures
        replaced(s, seq![c], seq![d]) == s.map_values(|x: char| if x == c { d } else { x }),
    decreases s.len(),
{
    let from = seq![c];
    let f = |x: char| if x == c { d } else { x };
    find_from_first(s, from, 0);
    match find_from(s, from, 0) {
        None => {
            assert forall|k: int| 0 <= k < s.len() implies s[k] != c by {
                if s[k] == c {
                    assert(s.subrange(k, k + 1) =~= from);
                    assert(has_at(s, k, from));
                }
            }
            assert(s.map_values(f) =~= s);
        },
        Some(i) => {
            let rest = s.skip(i + 1);
            replacing_a_character(rest, c, d);
            assert forall|k: int| 0 <= k < i implies s[k] != c by {
                if s[k] == c {
                    assert(s.subrange(k, k + 1) =~= from);
                    assert(has_at(s, k, from));
                }
            }
            assert(s.subrange(i, i + 1)[0] == c);
            assert(s[i] == c);
            assert(s.map_values(f) =~= s.take(i) + seq![d] + rest.map_values(f));
        },
    }
}

/// Without its endings a text is a beginning of itself that has none of them left, and what was
/// taken off is nothing but endings.
pub proof fn endings_are_taken_off(s: Seq<char>, p: Seq<char>)
    requires
        p.len() > 0,
    ensures
        !p.is_suffix_of(without_suffixes(s, p)),
        without_suffixes(s, p).is_prefix_of(s),
        without_suffixes(s + p, p) == without_suffixes(s, p),
    decreases s.len(),
{
    let t = s + p;
    assert(t.subrange(t.len() - p.len(), t.len() as int) =~= p);
    assert(t.take(t.len() - p.len()) =~= s);
    if p.is_suffix_of(s) {
        let u = s.take(s.len() - p.len());
        endings_are_taken_off(u, p);
        let r = without_suffixes(s, p);
        assert(r =~= u.subrange(0, r.len() as int));
        assert(r =~= s.subrange(0, r.len() as int));
    } else {
        assert(s =~= s.subrange(0, s.len() as int));
    }
}

/// Of the characters of ASCII, the blank, the tabs, the line ends and the form feed are white space.
pub proof fn ascii_white_space(c: char)
    requires
        c <= '\u{7F}',
    ensures
        white_space(c) <==> c == ' ' || c == '\t' || c == '\n' || c == '\u{B}' || c == '\u{C}' || c
            == '\r',
{
}

} // verus!
