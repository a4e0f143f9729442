//! The declared C and C++ units of a repository.
//!
//! Units are known by the paths of their derivations. Evaluating `(import bob.nix {}).cc` gives,
//! for each unit, its name, its derivation and the directory of its source.
use crate::digest;
use crate::path;
use crate::strmap;
use crate::strmap::{StrMap, StrSet};
use crate::text;
use vstd::prelude::*;

verus! {

/// A declared unit: its name in `bob.nix`, and the directory of its source.
#[derive(Debug)]
pub struct CcUnit {
    pub name: String,
    pub src: String,
}

/// What a [`CcUnit`] holds.
#[verifier::ext_equal]
pub struct CcView {
    pub name: Seq<char>,
    pub src: Seq<char>,
}

impl DeepView for CcUnit {
    type V = CcView;

    open spec fn deep_view(&self) -> CcView {
        CcView { name: self.name@, src: self.src@ }
    }
}

/// The first position from `i` on of a character in `stops`, or the end.
pub open spec fn stop_at(s: Seq<char>, i: int, stops: Seq<char>) -> int
    decreases s.len() - i,
{
    if i < 0 || i >= s.len() || stops.contains(s[i]) {
        i
    } else {
        stop_at(s, i + 1, stops)
    }
}

/// The first position from `i` on that holds no ASCII letter.
pub open spec fn letters_end(s: Seq<char>, i: int) -> int
    decreases s.len() - i,
{
    if i < 0 || i >= s.len() || !('a' <= s[i] <= 'z' || 'A' <= s[i] <= 'Z') {
        i
    } else {
        letters_end(s, i + 1)
    }
}

/// The next string in quotes from `i` on and the position behind it; without one, the end. A string
/// holds no escapes. One without a closing quote goes to the end.
pub open spec fn quoted(s: Seq<char>, i: int) -> (Option<Seq<char>>, int) {
    let a = stop_at(s, i, seq!['"']);
    if a >= s.len() {
        (None, a)
    } else {
        let b = stop_at(s, a + 1, seq!['"']);
        (Some(s.subrange(a + 1, b)), b + 1)
    }
}

/// The fields `drv` and `src` of one entry, as far as they are strings, and the position behind.
pub struct Fields {
    pub drv: Option<Seq<char>>,
    pub src: Option<Seq<char>>,
    pub at: int,
}

proof fn stop_at_bounds(s: Seq<char>, i: int, stops: Seq<char>)
    requires
        0 <= i,
    ensures
        i <= stop_at(s, i, stops),
        i <= s.len() ==> stop_at(s, i, stops) <= s.len(),
        stop_at(s, i, stops) < s.len() ==> stops.contains(s[stop_at(s, i, stops)]),
    decreases s.len() - i,
{
    if i < s.len() && !stops.contains(s[i]) {
        stop_at_bounds(s, i + 1, stops);
    }
}

proof fn letters_end_bounds(s: Seq<char>, i: int)
    requires
        0 <= i,
    ensures
        i <= letters_end(s, i),
        i <= s.len() ==> letters_end(s, i) <= s.len(),
    decreases s.len() - i,
{
    if i < s.len() && ('a' <= s[i] <= 'z' || 'A' <= s[i] <= 'Z') {
        letters_end_bounds(s, i + 1);
    }
}

proof fn quoted_bounds(s: Seq<char>, i: int)
    requires
        0 <= i,
    ensures
        i <= quoted(s, i).1,
        i <= s.len() ==> quoted(s, i).1 <= s.len() + 1,
        quoted(s, i).0 is Some ==> i < quoted(s, i).1,
{
    stop_at_bounds(s, i, seq!['"']);
    let a = stop_at(s, i, seq!['"']);
    if a < s.len() {
        stop_at_bounds(s, a + 1, seq!['"']);
    }
}

/// The value from `i` on: a string, or anything else, which counts as none. And the position behind.
pub open spec fn value_from(s: Seq<char>, i: int) -> (Option<Seq<char>>, int) {
    let j = stop_at(s, i, seq!['"', 'n', '}']);
    if j < s.len() && s[j] == '"' {
        quoted(s, j)
    } else {
        (None, letters_end(s, j))
    }
}

proof fn value_from_bounds(s: Seq<char>, i: int)
    requires
        0 <= i,
    ensures
        i <= value_from(s, i).1,
        i <= s.len() + 1 ==> value_from(s, i).1 <= s.len() + 1,
{
    stop_at_bounds(s, i, seq!['"', 'n', '}']);
    let j = stop_at(s, i, seq!['"', 'n', '}']);
    quoted_bounds(s, j);
    letters_end_bounds(s, j);
    if i == s.len() + 1 {
        assert(j == i);
    }
}

/// The fields of an entry from `i` on, behind those already read. Its end is the closing brace.
pub open spec fn fields_from(s: Seq<char>, f: Fields) -> Fields
    decreases s.len() + 1 - f.at,
    via fields_end
{
    if f.at < 0 || f.at >= s.len() || s[f.at] == '}' {
        f
    } else {
        let (k, i) = quoted(s, f.at);
        match k {
            None => Fields { at: i, ..f },
            Some(key) => {
                let (v, j) = value_from(s, i);
                fields_from(
                    s,
                    Fields {
                        drv: if key == "drv"@ { v } else { f.drv },
                        src: if key == "src"@ { v } else { f.src },
                        at: j,
                    },
                )
            },
        }
    }
}

#[via_fn]
proof fn fields_end(s: Seq<char>, f: Fields) {
    if 0 <= f.at < s.len() {
        quoted_bounds(s, f.at);
        let (k, i) = quoted(s, f.at);
        value_from_bounds(s, i);
    }
}

proof fn fields_from_bounds(s: Seq<char>, f: Fields)
    requires
        0 <= f.at <= s.len() + 1,
    ensures
        f.at <= fields_from(s, f).at <= s.len() + 1,
    decreases s.len() + 1 - f.at,
{
    if f.at < s.len() && s[f.at] != '}' {
        quoted_bounds(s, f.at);
        let (k, i) = quoted(s, f.at);
        if let Some(key) = k {
            value_from_bounds(s, i);
            let (v, j) = value_from(s, i);
            fields_from_bounds(
                s,
                Fields {
                    drv: if key == "drv"@ { v } else { f.drv },
                    src: if key == "src"@ { v } else { f.src },
                    at: j,
                },
            );
        }
    }
}

/// The position behind an entry whose fields end at `i`.
pub open spec fn entry_end(s: Seq<char>, i: int) -> int {
    let j = stop_at(s, i, seq![',', '}']);
    if j < s.len() && s[j] == '}' {
        j + 1
    } else {
        j
    }
}

/// The units from `i` on, added to those in `m`: each entry with both fields, by its derivation.
pub open spec fn units_from(s: Seq<char>, i: int, m: Map<Seq<char>, CcView>) -> Map<
    Seq<char>,
    CcView,
>
    decreases s.len() + 1 - i,
    via units_end
{
    if i < 0 || i >= s.len() {
        m
    } else {
        let (n, j) = quoted(s, i);
        match n {
            None => m,
            Some(name) => {
                let f = fields_from(s, Fields { drv: None, src: None, at: j });
                let next = match (f.drv, f.src) {
                    (Some(d), Some(src)) => m.insert(d, CcView { name, src }),
                    _ => m,
                };
                units_from(s, entry_end(s, f.at), next)
            },
        }
    }
}

#[via_fn]
proof fn units_end(s: Seq<char>, i: int, m: Map<Seq<char>, CcView>) {
    if 0 <= i < s.len() {
        quoted_bounds(s, i);
        let (n, j) = quoted(s, i);
        let f = fields_from(s, Fields { drv: None, src: None, at: j });
        fields_from_bounds(s, Fields { drv: None, src: None, at: j });
        stop_at_bounds(s, f.at, seq![',', '}']);
    }
}

/// The units that a text declares.
pub open spec fn units_of(s: Seq<char>) -> Map<Seq<char>, CcView> {
    units_from(s, 0, Map::empty())
}

fn stop(cs: &Vec<char>, from: usize, a: char, b: char, c: char) -> (r: usize)
    requires
        from <= cs@.len() + 1,
        cs@.len() < usize::MAX,
    ensures
        r == stop_at(cs@, from as int, seq![a, b, c]),
        from <= r <= cs@.len() + 1,
        r < cs@.len() ==> cs@[r as int] == a || cs@[r as int] == b || cs@[r as int] == c,
{
    let ghost stops = seq![a, b, c];
    let mut i: usize = from;
    while i < cs.len() && cs[i] != a && cs[i] != b && cs[i] != c
        invariant
            from <= i <= cs@.len() + 1,
            stops == seq![a, b, c],
            stop_at(cs@, i as int, stops) == stop_at(cs@, from as int, stops),
        decreases cs.len() - i,
    {
        i = i + 1;
    }
    proof {
        if i < cs.len() {
            assert(stops[0] == a && stops[1] == b && stops[2] == c);
            assert(stops.contains(cs@[i as int]));
        }
    }
    i
}

/// Where stops are repeated, they count once.
proof fn same_stops(s: Seq<char>, i: int, p: Seq<char>, q: Seq<char>)
    requires
        forall|c: char| #[trigger] p.contains(c) <==> q.contains(c),
    ensures
        stop_at(s, i, p) == stop_at(s, i, q),
    decreases s.len() - i,
{
    if 0 <= i < s.len() {
        assert(p.contains(s[i]) <==> q.contains(s[i]));
        same_stops(s, i + 1, p, q);
    }
}

fn next_quoted(cs: &Vec<char>, from: usize) -> (r: (Option<String>, usize))
    requires
        from <= cs@.len() + 1,
        cs@.len() < usize::MAX,
    ensures
        ({
            let q = quoted(cs@, from as int);
            &&& r.1 == q.1
            &&& match r.0 {
                Some(v) => q.0 == Some(v@),
                None => q.0 is None,
            }
        }),
        from <= r.1 <= cs@.len() + 1,
        r.0 is Some ==> from < r.1,
{
    let ghost three = seq!['"', '"', '"'];
    let ghost one = seq!['"'];
    proof {
        assert forall|c: char| #[trigger] three.contains(c) <==> one.contains(c) by {
            assert(three[0] == '"' && one[0] == '"');
        }
    }
    let n: usize = cs.len();
    let a = stop(cs, from, '"', '"', '"');
    proof {
        same_stops(cs@, from as int, three, one);
    }
    if a >= n {
        return (None, a);
    }
    let b = stop(cs, a + 1, '"', '"', '"');
    proof {
        same_stops(cs@, a + 1, three, one);
        stop_at_bounds(cs@, a + 1, one);
    }
    let t = text::part(cs.as_slice(), a + 1, b);
    (Some(text::string_of(t.as_slice())), b + 1)
}

fn next_value(cs: &Vec<char>, from: usize) -> (r: (Option<String>, usize))
    requires
        from <= cs@.len() + 1,
        cs@.len() < usize::MAX,
    ensures
        ({
            let q = value_from(cs@, from as int);
            &&& r.1 == q.1
            &&& match r.0 {
                Some(v) => q.0 == Some(v@),
                None => q.0 is None,
            }
        }),
        from <= r.1 <= cs@.len() + 1,
{
    let j = stop(cs, from, '"', 'n', '}');
    if j < cs.len() && cs[j] == '"' {
        return next_quoted(cs, j);
    }
    let mut i: usize = j;
    while i < cs.len() && ('a' <= cs[i] && cs[i] <= 'z' || 'A' <= cs[i] && cs[i] <= 'Z')
        invariant
            from <= j <= i <= cs@.len() + 1,
            letters_end(cs@, i as int) == letters_end(cs@, j as int),
        decreases cs.len() - i,
    {
        i = i + 1;
    }
    (None, i)
}

/// Reads `{ "<name>": { "drv": "<path>", "src": "<dir>" or null }, … }`. Entries without a source
/// are passed over. Names, paths and directories hold no quotes or escapes, and the text is short
/// of the largest length there is.
pub fn parse(s: &str) -> (r: Result<StrMap<CcUnit>, String>)
    requires
        s@.len() < usize::MAX,
    ensures
        r matches Ok(m) && m@ == units_of(s@),
{
    let cs = text::chars_of(s);
    let n: usize = cs.len();
    let mut m: StrMap<CcUnit> = StrMap::new();
    let mut i: usize = 0;
    while i < n
        invariant
            cs@ == s@,
            n == cs@.len(),
            n < usize::MAX,
            i <= n + 1,
            units_from(cs@, i as int, m@) == units_of(s@),
        decreases n + 1 - i,
    {
        let (name, j) = next_quoted(&cs, i);
        let name = match name {
            None => {
                return Ok(m);
            },
            Some(name) => name,
        };
        let mut drv: Option<String> = None;
        let mut src: Option<String> = None;
        let mut at: usize = j;
        let ghost start = Fields { drv: None, src: None, at: j as int };
        let ghost f = fields_from(cs@, start);
        let mut more = true;
        while more && at < n && cs[at] != '}'
            invariant
                n == cs@.len(),
                n < usize::MAX,
                j <= at <= n + 1,
                more ==> fields_from(
                    cs@,
                    Fields {
                        drv: match drv {
                            Some(d) => Some(d@),
                            None => None,
                        },
                        src: match src {
                            Some(d) => Some(d@),
                            None => None,
                        },
                        at: at as int,
                    },
                ) == f,
                !more ==> f == (Fields {
                    drv: match drv {
                        Some(d) => Some(d@),
                        None => None,
                    },
                    src: match src {
                        Some(d) => Some(d@),
                        None => None,
                    },
                    at: at as int,
                }),
            decreases (if more { 1int } else { 0int }), n + 1 - at,
        {
            let (key, k) = next_quoted(&cs, at);
            match key {
                None => {
                    at = k;
                    more = false;
                },
                Some(key) => {
                    let (v, l) = next_value(&cs, k);
                    if text::str_eq(key.as_str(), "drv") {
                        proof {
                            reveal_strlit("drv");
                            reveal_strlit("src");
                            assert("drv"@[0] != "src"@[0]);
                        }
                        drv = v;
                    } else if text::str_eq(key.as_str(), "src") {
                        src = v;
                    }
                    at = l;
                },
            }
        }
        if let (Some(d), Some(p)) = (drv, src) {
            m.insert(d, CcUnit { name, src: p });
        }
        let ghost three = seq![',', '}', '}'];
        let ghost two = seq![',', '}'];
        proof {
            assert forall|c: char| #[trigger] three.contains(c) <==> two.contains(c) by {
                assert(three[0] == ',' && three[1] == '}' && two[0] == ',' && two[1] == '}');
            }
            same_stops(cs@, at as int, three, two);
        }
        let e = stop(&cs, at, ',', '}', '}');
        if e < n && cs[e] == '}' {
            i = e + 1;
        } else {
            i = e;
        }
    }
    Ok(m)
}

/// An entry of the evaluated set: a name, a derivation, and a source unless there is none.
pub struct Declared {
    pub name: Seq<char>,
    pub drv: Seq<char>,
    pub src: Option<Seq<char>>,
}

/// A string in quotes.
pub open spec fn in_quotes(w: Seq<char>) -> Seq<char> {
    seq!['"'] + w + seq!['"']
}

/// A source as JSON.
pub open spec fn source_text(src: Option<Seq<char>>) -> Seq<char> {
    match src {
        Some(p) => in_quotes(p),
        None => seq!['n', 'u', 'l', 'l'],
    }
}

/// An entry as JSON, as `nix-instantiate --json` writes it.
pub open spec fn entry_text(e: Declared) -> Seq<char> {
    in_quotes(e.name) + seq![':', '{'] + in_quotes("drv"@) + seq![':'] + in_quotes(e.drv)
        + seq![','] + in_quotes("src"@) + seq![':'] + source_text(e.src) + seq!['}']
}

/// Entries, each behind a separator, and the closing brace of the set.
pub open spec fn entries_text(es: Seq<Declared>, sep: char) -> Seq<char>
    decreases es.len(),
{
    if es.len() == 0 {
        if sep == '{' {
            seq!['{', '}']
        } else {
            seq!['}']
        }
    } else {
        seq![sep] + entry_text(es[0]) + entries_text(es.skip(1), ',')
    }
}

/// The evaluated set as JSON.
pub open spec fn set_text(es: Seq<Declared>) -> Seq<char> {
    entries_text(es, '{')
}

/// The units of some entries, added to those in `m`.
pub open spec fn declared_units(es: Seq<Declared>, m: Map<Seq<char>, CcView>) -> Map<
    Seq<char>,
    CcView,
>
    decreases es.len(),
{
    if es.len() == 0 {
        m
    } else {
        declared_units(
            es.skip(1),
            match es[0].src {
                Some(src) => m.insert(es[0].drv, CcView { name: es[0].name, src }),
                None => m,
            },
        )
    }
}

/// No quote stands in the names, paths and directories of an entry.
pub open spec fn no_quotes(e: Declared) -> bool {
    !e.name.contains('"') && !e.drv.contains('"') && (e.src matches Some(p) ==> !p.contains('"'))
}

/// What stands at a position of a text stands there for a part of it too.
proof fn part_at(s: Seq<char>, i: int, p: Seq<char>, a: int, b: int)
    requires
        text::has_at(s, i, p),
        0 <= a <= b <= p.len(),
    ensures
        text::has_at(s, i + a, p.subrange(a, b)),
{
    assert(s.subrange(i + a, i + b) =~= s.subrange(i, i + p.len()).subrange(a, b));
}

proof fn char_at(s: Seq<char>, i: int, p: Seq<char>, k: int)
    requires
        text::has_at(s, i, p),
        0 <= k < p.len(),
    ensures
        s[i + k] == p[k],
        0 <= i + k < s.len(),
{
    assert(s.subrange(i, i + p.len())[k] == s[i + k]);
}

/// A search passes over what does not stop it.
proof fn stops_behind(s: Seq<char>, i: int, stops: Seq<char>, n: int)
    requires
        0 <= i,
        0 <= n,
        i + n < s.len(),
        forall|k: int| i <= k < i + n ==> !stops.contains(#[trigger] s[k]),
        stops.contains(s[i + n]),
    ensures
        stop_at(s, i, stops) == i + n,
    decreases n,
{
    if n > 0 {
        assert(!stops.contains(s[i]));
        stops_behind(s, i + 1, stops, n - 1);
    }
}

/// A string in quotes behind something without quotes is found.
proof fn finds_quoted(s: Seq<char>, i: int, lead: Seq<char>, w: Seq<char>)
    requires
        text::has_at(s, i, lead + in_quotes(w)),
        !lead.contains('"'),
        !w.contains('"'),
    ensures
        quoted(s, i) == (Some(w), i + lead.len() + w.len() + 2),
{
    let p = lead + in_quotes(w);
    let q = seq!['"'];
    assert(q[0] == '"');
    let a = i + lead.len();
    assert forall|k: int| i <= k < a implies !q.contains(#[trigger] s[k]) by {
        char_at(s, i, p, k - i);
        assert(p[k - i] == lead[k - i]);
        assert(lead.contains(lead[k - i]));
    }
    char_at(s, i, p, lead.len() as int);
    stops_behind(s, i, q, lead.len() as int);
    assert forall|k: int| a + 1 <= k < a + 1 + w.len() implies !q.contains(#[trigger] s[k]) by {
        char_at(s, i, p, k - i);
        assert(p[k - i] == w[k - a - 1]);
        assert(w.contains(w[k - a - 1]));
    }
    char_at(s, i, p, lead.len() as int + 1 + w.len());
    stops_behind(s, a + 1, q, w.len() as int);
    assert(s.subrange(a + 1, a + 1 + w.len()) =~= w) by {
        assert forall|k: int| 0 <= k < w.len() implies s[a + 1 + k] == w[k] by {
            char_at(s, i, p, lead.len() + 1 + k);
        }
    }
}

/// The value behind a colon is found.
proof fn finds_value(s: Seq<char>, i: int, src: Option<Seq<char>>)
    requires
        text::has_at(s, i, seq![':'] + source_text(src) + seq!['}']),
        src matches Some(p) ==> !p.contains('"'),
    ensures
        value_from(s, i) == (src, i + 1 + source_text(src).len()),
{
    let p = seq![':'] + source_text(src) + seq!['}'];
    let stops = seq!['"', 'n', '}'];
    assert(stops[0] == '"' && stops[1] == 'n' && stops[2] == '}');
    char_at(s, i, p, 0);
    char_at(s, i, p, 1);
    stops_behind(s, i, stops, 1);
    match src {
        Some(w) => {
            part_at(s, i, p, 1, 1 + in_quotes(w).len() as int);
            assert(p.subrange(1, 1 + in_quotes(w).len() as int) =~= Seq::<char>::empty() + in_quotes(w));
            finds_quoted(s, i + 1, Seq::empty(), w);
        },
        None => {
            char_at(s, i, p, 2);
            char_at(s, i, p, 3);
            char_at(s, i, p, 4);
            char_at(s, i, p, 5);
            assert(letters_end(s, i + 5) == i + 5);
            assert(letters_end(s, i + 4) == i + 5);
            assert(letters_end(s, i + 3) == i + 5);
            assert(letters_end(s, i + 2) == i + 5);
            assert(letters_end(s, i + 1) == i + 5);
        },
    }
}

/// An entry behind its separator is read.
proof fn reads_entry(s: Seq<char>, i: int, sep: char, e: Declared)
    requires
        text::has_at(s, i, seq![sep] + entry_text(e)),
        sep != '"',
        no_quotes(e),
    ensures
        ({
            let j = i + e.name.len() + 3;
            let end = i + 1 + entry_text(e).len();
            &&& quoted(s, i) == (Some(e.name), j)
            &&& fields_from(s, Fields { drv: None, src: None, at: j }) == (Fields {
                drv: Some(e.drv),
                src: e.src,
                at: end - 1,
            })
            &&& entry_end(s, end - 1) == end
        }),
{
    reveal_strlit("drv");
    reveal_strlit("src");
    let p = seq![sep] + entry_text(e);
    let nn = e.name.len() as int;
    let dn = e.drv.len() as int;
    let vn = source_text(e.src).len() as int;
    // The name.
    let l1 = seq![sep];
    part_at(s, i, p, 0, nn + 3);
    assert(p.subrange(0, nn + 3) =~= l1 + in_quotes(e.name));
    finds_quoted(s, i, l1, e.name);
    let j = i + nn + 3;
    // The key of the derivation.
    let l2 = seq![':', '{'];
    part_at(s, i, p, nn + 3, nn + 10);
    assert(p.subrange(nn + 3, nn + 10) =~= l2 + in_quotes("drv"@));
    assert(!"drv"@.contains('"'));
    finds_quoted(s, j, l2, "drv"@);
    char_at(s, i, p, nn + 3);
    assert(s[j] == ':');
    // The derivation.
    let k = j + 7;
    let l3 = seq![':'];
    part_at(s, i, p, nn + 10, nn + 13 + dn);
    assert(p.subrange(nn + 10, nn + 13 + dn) =~= l3 + in_quotes(e.drv));
    let stops = seq!['"', 'n', '}'];
    assert(stops[0] == '"' && stops[1] == 'n' && stops[2] == '}');
    char_at(s, i, p, nn + 10);
    char_at(s, i, p, nn + 11);
    stops_behind(s, k, stops, 1);
    part_at(s, i, p, nn + 11, nn + 13 + dn);
    assert(p.subrange(nn + 11, nn + 13 + dn) =~= Seq::<char>::empty() + in_quotes(e.drv));
    finds_quoted(s, k + 1, Seq::empty(), e.drv);
    assert(value_from(s, k) == (Some(e.drv), k + 3 + dn));
    // The key of the source.
    let m = k + 3 + dn;
    let l4 = seq![','];
    part_at(s, i, p, nn + 13 + dn, nn + 19 + dn);
    assert(p.subrange(nn + 13 + dn, nn + 19 + dn) =~= l4 + in_quotes("src"@));
    assert(!"src"@.contains('"'));
    finds_quoted(s, m, l4, "src"@);
    char_at(s, i, p, nn + 13 + dn);
    assert(s[m] == ',');
    // The source.
    let o = m + 6;
    part_at(s, i, p, nn + 19 + dn, nn + 21 + dn + vn);
    assert(p.subrange(nn + 19 + dn, nn + 21 + dn + vn) =~= seq![':'] + source_text(e.src)
        + seq!['}']);
    finds_value(s, o, e.src);
    let end = o + 1 + vn;
    char_at(s, i, p, nn + 20 + dn + vn);
    assert(s[end] == '}');
    assert("drv"@[0] != "src"@[0]);
    let f0 = Fields { drv: None, src: None, at: j };
    let f1 = Fields { drv: Some(e.drv), src: None, at: m };
    let f2 = Fields { drv: Some(e.drv), src: e.src, at: end };
    assert(fields_from(s, f2) == f2);
    assert(fields_from(s, f1) == fields_from(s, f2));
    assert(fields_from(s, f0) == fields_from(s, f1));
    let two = seq![',', '}'];
    assert(two[1] == '}');
    assert(two.contains(s[end]));
    assert(stop_at(s, end, two) == end);
}

proof fn reads_entries(
    s: Seq<char>,
    i: int,
    sep: char,
    es: Seq<Declared>,
    m: Map<Seq<char>, CcView>,
)
    requires
        text::has_at(s, i, entries_text(es, sep)),
        i + entries_text(es, sep).len() == s.len(),
        sep != '"',
        forall|k: int| 0 <= k < es.len() ==> no_quotes(#[trigger] es[k]),
    ensures
        units_from(s, i, m) == declared_units(es, m),
    decreases es.len(),
{
    let t = entries_text(es, sep);
    if es.len() == 0 {
        let q = seq!['"'];
        assert forall|k: int| i <= k < s.len() implies !q.contains(#[trigger] s[k]) by {
            char_at(s, i, t, k - i);
        }
        no_stop(s, i, q);
        assert(t.len() > 0);
    } else {
        let e = es[0];
        let head = seq![sep] + entry_text(e);
        let rest = es.skip(1);
        assert(t =~= head + entries_text(rest, ','));
        part_at(s, i, t, 0, head.len() as int);
        assert(t.subrange(0, head.len() as int) =~= head);
        reads_entry(s, i, sep, e);
        part_at(s, i, t, head.len() as int, t.len() as int);
        assert(t.subrange(head.len() as int, t.len() as int) =~= entries_text(rest, ','));
        assert forall|k: int| 0 <= k < rest.len() implies no_quotes(#[trigger] rest[k]) by {
            assert(rest[k] == es[k + 1]);
        }
        let next = match e.src {
            Some(src) => m.insert(e.drv, CcView { name: e.name, src }),
            None => m,
        };
        reads_entries(s, i + head.len(), ',', rest, next);
        assert(units_from(s, i, m) == units_from(s, i + head.len(), next));
    }
}

/// Without a stop a search goes to the end.
proof fn no_stop(s: Seq<char>, i: int, stops: Seq<char>)
    requires
        0 <= i <= s.len(),
        forall|k: int| i <= k < s.len() ==> !stops.contains(#[trigger] s[k]),
    ensures
        stop_at(s, i, stops) == s.len(),
    decreases s.len() - i,
{
    if i < s.len() {
        no_stop(s, i + 1, stops);
    }
}

/// The text of an evaluated set reads as its units: each entry with a source, by its derivation.
pub proof fn set_reads_back(es: Seq<Declared>)
    requires
        forall|k: int| 0 <= k < es.len() ==> no_quotes(#[trigger] es[k]),
    ensures
        units_of(set_text(es)) == declared_units(es, Map::empty()),
{
    let s = set_text(es);
    assert(s.subrange(0, s.len() as int) =~= s);
    reads_entries(s, 0, '{', es, Map::empty());
}

/// Where the result of evaluating the declared units is kept: under a key of `bob.nix`.
pub open spec fn units_place(cache_root: Seq<char>, bob_nix: Seq<u8>) -> Seq<char> {
    path::joined(
        path::joined(cache_root, "eval"@),
        "ccunits."@ + digest::short_hex(bob_nix, 16) + ".json"@,
    )
}

/// Gives the place where the result of evaluating the declared units is kept.
pub fn units_path(cache_root: &str, bob_nix: &[u8]) -> (r: String)
    ensures
        r@ == units_place(cache_root@, bob_nix@),
{
    let mut name = "ccunits.".to_owned();
    name.append(digest::short_hash(bob_nix, 16).as_str());
    name.append(".json");
    path::join(path::join(cache_root, "eval").as_str(), name.as_str())
}

/// The expression whose value is the set of declared units. A repository may declare none, and a
/// declared derivation may name no source.
pub fn units_expr(repo_root: &str) -> (r: String)
    ensures
        r@
            == "builtins.mapAttrs\n             (_: v: { drv = v.drvPath; src = v.bobCcSrc or null; })\n             ((import "@
            + repo_root@ + "/bob.nix {}).cc or {})"@,
{
    let mut s =
        "builtins.mapAttrs\n             (_: v: { drv = v.drvPath; src = v.bobCcSrc or null; })\n             ((import ".to_owned();
    s.append(repo_root);
    s.append("/bob.nix {}).cc or {})");
    s
}

/// Reads the output of evaluating the declared units.
pub fn load(success: bool, stdout: &str, stderr: &str) -> (r: Result<StrMap<CcUnit>, String>)
    requires
        stdout@.len() < usize::MAX,
    ensures
        match r {
            Ok(m) => success && m@ == units_of(stdout@),
            Err(e) => !success && e@ == "evaluating cc units: "@ + stderr@,
        },
{
    if success {
        parse(stdout)
    } else {
        let mut e = "evaluating cc units: ".to_owned();
        e.append(stderr);
        Err(e)
    }
}

/// Whether a directory holds what is built, which is no source.
pub fn skip_dir(name: &str) -> (r: bool)
    ensures
        r == (name@ == "build"@ || name@ == "target"@),
{
    text::str_eq(name, "build") || text::str_eq(name, "target")
}

/// The names of declared units.
pub open spec fn names_of(units: Map<Seq<char>, CcView>) -> Set<Seq<char>> {
    Set::new(|n: Seq<char>| exists|d: Seq<char>| #[trigger] units.contains_key(d) && units[d].name == n)
}

/// Gives the names of the declared units.
pub fn cc_target_names(units: &StrMap<CcUnit>) -> (r: StrSet)
    ensures
        r@ == names_of(units@),
{
    let ghost l = strmap::listing(units@);
    let n: usize = units.len();
    let mut names = StrSet::new();
    for i in 0..n
        invariant
            l == strmap::listing(units@),
            n == l.len(),
            forall|x: Seq<char>| #[trigger]
                names@.contains(x) <==> exists|j: int| 0 <= j < i && (#[trigger] l[j]).1.name == x,
    {
        names.insert(units.value(i).name.clone());
    }
    proof {
        assert forall|x: Seq<char>| #[trigger] names@.contains(x) <==> names_of(units@).contains(x) by {
            if names@.contains(x) {
                let j = choose|j: int| 0 <= j < l.len() && (#[trigger] l[j]).1.name == x;
                strmap::ascending_index(l, j);
                assert(units@.contains_key(l[j].0));
            }
            if names_of(units@).contains(x) {
                let d = choose|d: Seq<char>| #[trigger]
                    units@.contains_key(d) && units@[d].name == x;
                assert(strmap::as_map(l).contains_key(d));
                assert(l[strmap::key_index(l, d)].1.name == x);
            }
        }
        assert(names@ =~= names_of(units@));
    }
    names
}

/// What follows the word that declares a project, in one of the ways it is written.
pub open spec fn behind_project(line: Seq<char>) -> Option<Seq<char>> {
    let t = text::trimmed_start(line);
    match text::without_prefix(t, "project("@) {
        Some(r) => Some(r),
        None => match text::without_prefix(t, "project ("@) {
            Some(r) => Some(r),
            None => match text::without_prefix(t, "PROJECT("@) {
                Some(r) => Some(r),
                None => text::without_prefix(t, "Project("@),
            },
        },
    }
}

fn strip_project(line: &str) -> (r: Option<String>)
    ensures
        match r {
            Some(s) => behind_project(line@) == Some(s@),
            None => behind_project(line@) is None,
        },
{
    let t = text::trim_start(line);
    match text::strip_prefix(t.as_str(), "project(") {
        Some(r) => Some(r),
        None => match text::strip_prefix(t.as_str(), "project (") {
            Some(r) => Some(r),
            None => match text::strip_prefix(t.as_str(), "PROJECT(") {
                Some(r) => Some(r),
                None => text::strip_prefix(t.as_str(), "Project("),
            },
        },
    }
}

/// Whether a character is a quote.
pub open spec fn is_quote(c: char) -> bool {
    c == '\'' || c == '"'
}

/// A text without the quotes at its start.
pub open spec fn unquoted(s: Seq<char>) -> Seq<char>
    decreases s.len(),
{
    if s.len() > 0 && is_quote(s[0]) {
        unquoted(s.skip(1))
    } else {
        s
    }
}

/// Whether a character ends a name.
pub open spec fn ends_name(c: char) -> bool {
    c == ',' || c == ')' || is_quote(c) || text::white_space(c)
}

/// A text up to the first character that ends a name.
pub open spec fn name_part(s: Seq<char>) -> Seq<char>
    decreases s.len(),
{
    if s.len() == 0 || ends_name(s[0]) {
        Seq::empty()
    } else {
        seq![s[0]] + name_part(s.skip(1))
    }
}

/// The project that a line declares. A name that is empty or has to be expanded is none.
pub open spec fn project_of(line: Seq<char>) -> Option<Seq<char>> {
    match behind_project(line) {
        None => None,
        Some(rest) => {
            let n = name_part(unquoted(text::trimmed_start(rest)));
            if n.len() == 0 || n.contains('$') || n.contains('@') {
                None
            } else {
                Some(n)
            }
        },
    }
}

fn declared_project(line: &str) -> (r: Option<String>)
    ensures
        match r {
            Some(s) => project_of(line@) == Some(s@),
            None => project_of(line@) is None,
        },
{
    let rest = match strip_project(line) {
        None => {
            return None;
        },
        Some(r) => r,
    };
    let t = text::trim_start(rest.as_str());
    let cs = text::chars_of(t.as_str());
    let ghost q = unquoted(cs@);
    let mut i: usize = 0;
    assert(cs@.skip(0) =~= cs@);
    while i < cs.len() && (cs[i] == '\'' || cs[i] == '"')
        invariant
            i <= cs@.len(),
            unquoted(cs@.skip(i as int)) == q,
        decreases cs@.len() - i,
    {
        assert(cs@.skip(i as int).skip(1) =~= cs@.skip(i + 1));
        i += 1;
    }
    assert(q == cs@.skip(i as int));
    let mut name = String::new();
    let mut special = false;
    let n: usize = cs.len();
    assert(name@ + name_part(cs@.skip(i as int)) =~= name_part(q));
    while i < n && cs[i] != ',' && cs[i] != ')' && cs[i] != '\'' && cs[i] != '"'
        && !text::is_white_space(cs[i])
        invariant
            n == cs@.len(),
            i <= n,
            name@ + name_part(cs@.skip(i as int)) == name_part(q),
            special == (name@.contains('$') || name@.contains('@')),
        decreases n - i,
    {
        let ghost before = name@;
        if cs[i] == '$' || cs[i] == '@' {
            special = true;
        }
        name.push(cs[i]);
        proof {
            assert(cs@.skip(i as int).skip(1) =~= cs@.skip(i + 1));
            assert(before + (seq![cs@[i as int]] + name_part(cs@.skip(i + 1))) =~= name@
                + name_part(cs@.skip(i + 1)));
            crate::graph::pushed(before, cs@[i as int], '$');
            crate::graph::pushed(before, cs@[i as int], '@');
        }
        i += 1;
    }
    assert(name@ =~= name_part(q));
    if special || text::str_eq(name.as_str(), "") {
        proof {
            reveal_strlit("");
        }
        return None;
    }
    proof {
        reveal_strlit("");
        if name@.len() == 0 {
            assert(name@ =~= ""@);
        }
    }
    Some(name)
}

/// The first project that lines declare.
pub open spec fn first_project(lines: Seq<Seq<char>>) -> Option<Seq<char>>
    decreases lines.len(),
{
    if lines.len() == 0 {
        None
    } else {
        match first_project(lines.drop_last()) {
            Some(n) => Some(n),
            None => project_of(lines.last()),
        }
    }
}

proof fn first_stays(lines: Seq<Seq<char>>, n: int)
    requires
        0 <= n <= lines.len(),
        first_project(lines.take(n)) is Some,
    ensures
        first_project(lines) == first_project(lines.take(n)),
    decreases lines.len(),
{
    if n == lines.len() {
        assert(lines.take(n) =~= lines);
    } else {
        assert(lines.drop_last().take(n) =~= lines.take(n));
        first_stays(lines.drop_last(), n);
    }
}

fn project_in(s: &str) -> (r: Option<String>)
    ensures
        match r {
            Some(n) => first_project(text::lines_of(s@)) == Some(n@),
            None => first_project(text::lines_of(s@)) is None,
        },
{
    let lines = text::lines(s);
    let ghost ls = text::lines_of(s@);
    assert(ls.take(0) =~= Seq::empty());
    for i in 0..lines.len()
        invariant
            lines.deep_view() == ls,
            ls == text::lines_of(s@),
            first_project(ls.take(i as int)) is None,
    {
        proof {
            assert(ls.take(i + 1).drop_last() =~= ls.take(i as int));
            assert(lines.deep_view()[i as int] == ls[i as int]);
        }
        match declared_project(lines[i].as_str()) {
            Some(n) => {
                proof {
                    first_stays(ls, i + 1);
                }
                return Some(n);
            },
            None => {},
        }
    }
    assert(ls.take(ls.len() as int) =~= ls);
    None
}

/// The name of the project in a directory, given its `CMakeLists.txt` and its `meson.build` where
/// they can be read: the first that one of them declares, in this order.
pub fn project_name(cmake_lists: Option<&str>, meson_build: Option<&str>) -> (r: Option<String>)
    ensures
        ({
            let cmake = match cmake_lists {
                Some(s) => first_project(text::lines_of(s@)),
                None => None,
            };
            let meson = match meson_build {
                Some(s) => first_project(text::lines_of(s@)),
                None => None,
            };
            let want = if cmake is Some {
                cmake
            } else {
                meson
            };
            match r {
                Some(n) => want == Some(n@),
                None => want is None,
            }
        }),
{
    match cmake_lists {
        Some(s) => match project_in(s) {
            Some(n) => {
                return Some(n);
            },
            None => {},
        },
        None => {},
    }
    match meson_build {
        Some(s) => project_in(s),
        None => None,
    }
}

proof fn name_ends_there(n: Seq<char>, rest: Seq<char>)
    requires
        forall|i: int| 0 <= i < n.len() ==> !ends_name(#[trigger] n[i]),
        rest.len() > 0 ==> ends_name(rest[0]),
    ensures
        name_part(n + rest) == n,
    decreases n.len(),
{
    let s = n + rest;
    if n.len() > 0 {
        let m = n.skip(1);
        assert(s[0] == n[0]);
        assert(!ends_name(n[0]));
        assert(s.skip(1) =~= m + rest);
        assert forall|i: int| 0 <= i < m.len() implies !ends_name(#[trigger] m[i]) by {
            assert(m[i] == n[i + 1]);
        }
        name_ends_there(m, rest);
        assert(seq![n[0]] + m =~= n);
    } else {
        assert(s =~= rest);
    }
}

/// A project that is declared, in any of the usual spellings, with or without quotes, is found by
/// its name up to the comma, the bracket, the quote or the blank behind it. A name that is to be
/// put together is none.
pub proof fn declared_projects_are_found(n: Seq<char>, rest: Seq<char>, quote: bool)
    requires
        n.len() > 0,
        forall|i: int| 0 <= i < n.len() ==> !ends_name(#[trigger] n[i]),
        rest.len() > 0,
        rest[0] == ',' || rest[0] == ')' || rest[0] == '\'' || rest[0] == '"' || rest[0] == ' ',
    ensures
        ({
            let s = (if quote { seq!['\''] } else { Seq::<char>::empty() }) + n + rest;
            let want = if n.contains('$') || n.contains('@') { None } else { Some(n) };
            &&& project_of("project("@ + s) == want
            &&& project_of("project ("@ + s) == want
            &&& project_of("PROJECT("@ + s) == want
            &&& project_of("Project("@ + s) == want
        }),
{
    reveal_strlit("project(");
    reveal_strlit("project (");
    reveal_strlit("PROJECT(");
    reveal_strlit("Project(");
    let q = if quote {
        seq!['\'']
    } else {
        Seq::<char>::empty()
    };
    let s = q + n + rest;
    assert(ends_name(rest[0]));
    name_ends_there(n, rest);
    assert(!ends_name(n[0]));
    assert(n + rest =~= q.skip(q.len() as int) + (n + rest));
    assert((n + rest)[0] == n[0]);
    assert(unquoted(n + rest) == n + rest);
    if quote {
        assert(s[0] == '\'');
        assert(s.skip(1) =~= n + rest);
    } else {
        assert(s =~= n + rest);
    }
    assert(unquoted(s) == n + rest);
    assert(!text::white_space('\''));
    assert(!text::white_space(s[0]));
    assert(text::trimmed_start(s) =~= s);
    starts_a_project("project("@, s);
    starts_a_project("project ("@, s);
    starts_a_project("PROJECT("@, s);
    starts_a_project("Project("@, s);
}

proof fn starts_a_project(w: Seq<char>, s: Seq<char>)
    requires
        w == "project("@ || w == "project ("@ || w == "PROJECT("@ || w == "Project("@,
    ensures
        behind_project(w + s) == Some(s),
{
    reveal_strlit("project(");
    reveal_strlit("project (");
    reveal_strlit("PROJECT(");
    reveal_strlit("Project(");
    let l = w + s;
    assert(l[0] == w[0] && l[1] == w[1] && l[7] == w[7]);
    assert(text::trimmed_start(l) =~= l);
    let a = "project("@;
    let b = "project ("@;
    let c = "PROJECT("@;
    let d = "Project("@;
    assert(w =~= l.subrange(0, w.len() as int));
    assert(w.is_prefix_of(l));
    assert(l.skip(w.len() as int) =~= s);
    if w != a && a.is_prefix_of(l) {
        assert(l.subrange(0, 8)[0] == a[0]);
        assert(l.subrange(0, 8)[7] == a[7]);
    }
    if (w == c || w == d) && b.is_prefix_of(l) {
        assert(l.subrange(0, 9)[0] == b[0]);
    }
    if w == d && c.is_prefix_of(l) {
        assert(l.subrange(0, 8)[1] == c[1]);
    }
}

/// The first declaration in a file counts.
pub proof fn the_first_project_counts(lines: Seq<Seq<char>>, i: int, n: Seq<char>)
    requires
        0 <= i < lines.len(),
        project_of(lines[i]) == Some(n),
        forall|k: int| 0 <= k < i ==> project_of(#[trigger] lines[k]) is None,
    ensures
        first_project(lines) == Some(n),
    decreases lines.len(),
{
    let f = lines.drop_last();
    if i < f.len() {
        assert(f[i] == lines[i]);
        assert forall|k: int| 0 <= k < i implies project_of(#[trigger] f[k]) is None by {
            assert(f[k] == lines[k]);
        }
        the_first_project_counts(f, i, n);
    } else {
        no_project(f);
    }
}

proof fn no_project(lines: Seq<Seq<char>>)
    requires
        forall|k: int| 0 <= k < lines.len() ==> project_of(#[trigger] lines[k]) is None,
    ensures
        first_project(lines) is None,
    decreases lines.len(),
{
    if lines.len() > 0 {
        let f = lines.drop_last();
        assert forall|k: int| 0 <= k < f.len() implies project_of(#[trigger] f[k]) is None by {
            assert(f[k] == lines[k]);
        }
        no_project(f);
        assert(project_of(lines[lines.len() - 1]) is None);
    }
}

/// Exactly the names of the declared units are targets.
pub proof fn declared_names_are_targets(units: Map<Seq<char>, CcView>, d: Seq<char>, n: Seq<char>)
    ensures
        units.contains_key(d) ==> names_of(units).contains(units[d].name),
        names_of(units).contains(n) ==> exists|u: Seq<char>| #[trigger]
            units.contains_key(u) && units[u].name == n,
{
}

/// Other contents of `bob.nix` have their units kept at another place, as long as the digests differ.
pub proof fn units_are_kept_by_contents(root: Seq<char>, a: Seq<u8>, b: Seq<u8>)
    requires
        digest::blake3_hex(a).take(16) != digest::blake3_hex(b).take(16),
    ensures
        units_place(root, a) != units_place(root, b),
        units_place(root, a) == path::joined(
            path::joined(root, "eval"@),
            "ccunits."@ + digest::blake3_hex(a).take(16) + ".json"@,
        ),
{
    reveal_strlit("ccunits.");
    let e = path::joined(root, "eval"@);
    let x = digest::blake3_hex(a).take(16);
    let y = digest::blake3_hex(b).take(16);
    let p = "ccunits."@ + x + ".json"@;
    let q = "ccunits."@ + y + ".json"@;
    path::joining_goes_below(e, p);
    path::joining_goes_below(e, q);
    assert(p[0] == 'c' && q[0] == 'c');
    let h = if e.len() > 0 && e.last() != '/' {
        e + seq!['/']
    } else {
        e
    };
    assert(path::joined(e, p) =~= h + p);
    assert(path::joined(e, q) =~= h + q);
    if h + p == h + q {
        assert(p =~= (h + p).skip(h.len() as int));
        assert(q =~= (h + q).skip(h.len() as int));
        assert(p.len() == q.len());
        let n = "ccunits."@.len() as int;
        assert(x =~= p.subrange(n, n + x.len()));
        assert(y =~= q.subrange(n, n + x.len()));
    }
}

/// Directories that builds fill are no source, and all others may be.
pub proof fn built_directories_are_no_source(name: &str, r: bool)
    requires
        call_ensures(skip_dir, (name,), r),
    ensures
        name@ == seq!['b', 'u', 'i', 'l', 'd'] ==> r,
        name@ == seq!['t', 'a', 'r', 'g', 'e', 't'] ==> r,
        name@ != seq!['b', 'u', 'i', 'l', 'd'] && name@ != seq!['t', 'a', 'r', 'g', 'e', 't'] ==> !r,
{
    reveal_strlit("build");
    reveal_strlit("target");
    assert("build"@ =~= seq!['b', 'u', 'i', 'l', 'd']);
    assert("target"@ =~= seq!['t', 'a', 'r', 'g', 'e', 't']);
}

/// Declared units are asked for from `bob.nix` of the repository, with the path of the derivation and
/// the directory of the source of each.
pub proof fn declared_units_are_asked_for(root: &str, r: String)
    requires
        call_ensures(units_expr, (root,), r),
    ensures
        text::occurs(r@, "(import "@ + root@ + "/bob.nix {}).cc or {})"@),
        text::occurs(r@, "{ drv = v.drvPath; src = v.bobCcSrc or null; }"@),
{
    reveal_strlit("(import ");
    reveal_strlit("{ drv = v.drvPath; src = v.bobCcSrc or null; }");
    reveal_strlit(
        "builtins.mapAttrs\n             (_: v: { drv = v.drvPath; src = v.bobCcSrc or null; })\n             ((import ",
    );
    reveal_strlit("/bob.nix {}).cc or {})");
    let h =
        "builtins.mapAttrs\n             (_: v: { drv = v.drvPath; src = v.bobCcSrc or null; })\n             ((import "@;
    let a = "(import "@ + root@ + "/bob.nix {}).cc or {})"@;
    let b = "{ drv = v.drvPath; src = v.bobCcSrc or null; }"@;
    let i: int = h.len() - 8;
    assert(r@.subrange(i, i + a.len()) =~= a);
    assert(text::has_at(r@, i, a));
    assert(h.subrange(38, 38 + b.len() as int) =~= b);
    assert(r@.subrange(38, 38 + b.len() as int) =~= b);
    assert(text::has_at(r@, 38, b));
}

/// The name of a project ends at a comma, at a bracket, at a quote and at white space, and nowhere
/// else.
pub proof fn names_end_at_punctuation(c: char)
    ensures
        ends_name(c) <==> (c == ',' || c == ')' || c == '\'' || c == '"' || text::white_space(c)),
{
}

} // verus!
