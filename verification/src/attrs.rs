//! `__structuredAttrs` JSON as bash declarations.
//!
//! Nix's builder writes an `.attrs.sh` beside `.attrs.json` that declares each top-level
//! attribute with the right bash type, so that `$stdenv/setup` can walk `outputs`, `env` and
//! `*Inputs` as arrays. This module gives the text of both files, with store paths rewritten
//! and `outputs` and `src` pointed at the cache.
use crate::json;
use crate::json::{JsonNode, JsonTree};
use crate::rewrite;
use crate::rewrite::PathRewriter;
use crate::strmap;
use crate::strmap::StrMap;
use crate::text;
use vstd::prelude::*;

verus! {

/// The text of a character between single quotes.
pub open spec fn quoted_char(c: char) -> Seq<char> {
    if c == '\'' {
        "'\\''"@
    } else {
        seq![c]
    }
}

/// A text quoted for a POSIX shell: between single quotes, each inner single quote as `'\''`.
pub open spec fn sh_escaped(s: Seq<char>) -> Seq<char> {
    seq!['\''] + text::each_char(s, |c: char| quoted_char(c)) + seq!['\'']
}

/// Quotes a text for a POSIX shell.
pub fn sh_escape(s: &str) -> (r: String)
    ensures
        r@ == sh_escaped(s@),
{
    let cs = text::chars_of(s);
    let mut out = String::new();
    out.push('\'');
    let ghost f = |c: char| quoted_char(c);
    assert(out@ =~= seq!['\'']);
    for i in 0..cs.len()
        invariant
            cs@ == s@,
            f == (|c: char| quoted_char(c)),
            out@ == seq!['\''] + text::each_char(s@.take(i as int), f),
    {
        if cs[i] == '\'' {
            out.append("'\\''");
        } else {
            out.push(cs[i]);
        }
        proof {
            assert(s@.take(i + 1).drop_last() =~= s@.take(i as int));
            assert(out@ =~= seq!['\''] + text::each_char(s@.take(i + 1), f));
        }
    }
    assert(s@.take(s@.len() as int) =~= s@);
    out.push('\'');
    assert(out@ =~= sh_escaped(s@));
    out
}

/// A letter of the ASCII alphabet, or an underscore.
pub open spec fn ident_start(c: char) -> bool {
    'a' <= c <= 'z' || 'A' <= c <= 'Z' || c == '_'
}

/// What may follow the first character of a bash identifier.
pub open spec fn ident_rest(c: char) -> bool {
    ident_start(c) || '0' <= c <= '9'
}

/// A bash identifier: `[A-Za-z_][A-Za-z0-9_]*`.
pub open spec fn bash_ident(s: Seq<char>) -> bool {
    &&& s.len() > 0
    &&& ident_start(s[0])
    &&& forall|i: int| 1 <= i < s.len() ==> ident_rest(#[trigger] s[i])
}

/// Tells whether a key is a bash identifier.
pub fn is_valid_bash_ident(s: &str) -> (r: bool)
    ensures
        r == bash_ident(s@),
{
    let cs = text::chars_of(s);
    if cs.len() == 0 {
        return false;
    }
    let c: char = cs[0];
    if !('a' <= c && c <= 'z' || 'A' <= c && c <= 'Z' || c == '_') {
        return false;
    }
    for i in 1..cs.len()
        invariant
            cs@ == s@,
            forall|j: int| 1 <= j < i ==> ident_rest(#[trigger] s@[j]),
    {
        let c: char = cs[i];
        if !('a' <= c && c <= 'z' || 'A' <= c && c <= 'Z' || c == '_' || '0' <= c && c <= '9') {
            assert(!ident_rest(s@[i as int]));
            return false;
        }
    }
    true
}

/// The text of a character between `$'` and `'`.
pub open spec fn dollar_char(c: char) -> Seq<char> {
    if c == '\\' {
        "\\\\"@
    } else if c == '\'' {
        "\\'"@
    } else if c == '\n' {
        "\\n"@
    } else if c == '\t' {
        "\\t"@
    } else if c == '\r' {
        "\\r"@
    } else {
        seq![c]
    }
}

/// A text as it stands in bash between `$'` and `'`.
pub open spec fn dollar_escaped(s: Seq<char>) -> Seq<char> {
    text::each_char(s, |c: char| dollar_char(c))
}

/// Escapes a text for bash's `$'...'`.
pub fn escape_for_dollar_single_quote(s: &str) -> (r: String)
    ensures
        r@ == dollar_escaped(s@),
{
    let cs = text::chars_of(s);
    let mut out = String::new();
    let ghost f = |c: char| dollar_char(c);
    for i in 0..cs.len()
        invariant
            cs@ == s@,
            f == (|c: char| dollar_char(c)),
            out@ == text::each_char(s@.take(i as int), f),
    {
        let c: char = cs[i];
        if c == '\\' {
            out.append("\\\\");
        } else if c == '\'' {
            out.append("\\'");
        } else if c == '\n' {
            out.append("\\n");
        } else if c == '\t' {
            out.append("\\t");
        } else if c == '\r' {
            out.append("\\r");
        } else {
            out.push(c);
        }
        proof {
            assert(s@.take(i + 1).drop_last() =~= s@.take(i as int));
            assert(out@ =~= text::each_char(s@.take(i + 1), f));
        }
    }
    assert(s@.take(s@.len() as int) =~= s@);
    out
}

/// How a shell reads a word from position `i` on, behind what it has read of it: text between single
/// quotes is taken as it is, and outside them a backslash stands before a character. Anything else
/// is no part of such a word.
pub open spec fn sh_word(s: Seq<char>, i: int, inside: bool, acc: Seq<char>) -> Option<Seq<char>>
    decreases s.len() - i,
{
    if i < 0 || i >= s.len() {
        if inside {
            None
        } else {
            Some(acc)
        }
    } else if s[i] == '\'' {
        sh_word(s, i + 1, !inside, acc)
    } else if inside {
        sh_word(s, i + 1, inside, acc.push(s[i]))
    } else if s[i] == '\\' && i + 1 < s.len() {
        sh_word(s, i + 2, inside, acc.push(s[i + 1]))
    } else {
        None
    }
}

proof fn first_char(s: Seq<char>, f: spec_fn(char) -> Seq<char>)
    requires
        s.len() > 0,
    ensures
        text::each_char(s, f) == f(s[0]) + text::each_char(s.skip(1), f),
    decreases s.len(),
{
    if s.len() == 1 {
        assert(s.drop_last() =~= Seq::empty());
        assert(s.skip(1) =~= Seq::empty());
        assert(text::each_char(s, f) =~= f(s[0]) + text::each_char(s.skip(1), f));
    } else {
        let d = s.drop_last();
        first_char(d, f);
        assert(d.skip(1) =~= s.skip(1).drop_last());
        assert(text::each_char(s, f) =~= f(s[0]) + text::each_char(s.skip(1), f));
    }
}

proof fn quoted_reads_back(t: Seq<char>, i: int, s: Seq<char>, acc: Seq<char>)
    requires
        0 <= i <= t.len(),
        t.skip(i) == text::each_char(s, |c: char| quoted_char(c)) + "'"@,
    ensures
        sh_word(t, i, true, acc) == Some(acc + s),
    decreases s.len(),
{
    reveal_strlit("'");
    reveal_strlit("'\\''");
    let f = |c: char| quoted_char(c);
    let body = text::each_char(s, f);
    let u = t.skip(i);
    assert(forall|k: int| 0 <= k < u.len() ==> u[k] == t[i + k]);
    if s.len() == 0 {
        assert(u =~= "'"@);
        assert(t[i] == u[0]);
        assert(t.len() == i + 1);
        assert(sh_word(t, i + 1, false, acc) == Some(acc));
        assert(acc + s =~= acc);
    } else {
        let c = s[0];
        let rest = s.skip(1);
        first_char(s, f);
        let w = quoted_char(c);
        let tail = text::each_char(rest, f) + "'"@;
        assert(u =~= w + tail);
        assert(t.skip(i + w.len()) =~= u.skip(w.len() as int));
        assert(u.skip(w.len() as int) =~= tail);
        quoted_reads_back(t, i + w.len(), rest, acc.push(c));
        assert(acc.push(c) + rest =~= acc + s);
        if c == '\'' {
            assert(u[0] == w[0] && u[1] == w[1] && u[2] == w[2] && u[3] == w[3]);
            assert(t[i] == '\'' && t[i + 1] == '\\' && t[i + 2] == '\'' && t[i + 3] == '\'');
            assert(sh_word(t, i + 3, false, acc.push(c)) == sh_word(t, i + 4, true, acc.push(c)));
            assert(sh_word(t, i + 1, false, acc) == sh_word(t, i + 3, false, acc.push(c)));
        } else {
            assert(u[0] == w[0]);
            assert(t[i] == c);
        }
    }
}

/// A shell reads a quoted string as that string.
pub proof fn quoting_reads_back(s: Seq<char>)
    ensures
        sh_word(sh_escaped(s), 0, false, Seq::empty()) == Some(s),
{
    reveal_strlit("'");
    let t = sh_escaped(s);
    let body = text::each_char(s, |c: char| quoted_char(c));
    assert(t[0] == '\'');
    assert(t.skip(1) =~= body + "'"@);
    quoted_reads_back(t, 1, s, Seq::empty());
    assert(Seq::<char>::empty() + s =~= s);
}

/// What a character behind a backslash stands for between `$'` and `'`, for the escapes in use.
pub open spec fn dollar_meaning(c: char) -> Option<char> {
    if c == '\\' || c == '\'' {
        Some(c)
    } else if c == 'n' {
        Some('\n')
    } else if c == 't' {
        Some('\t')
    } else if c == 'r' {
        Some('\r')
    } else {
        None
    }
}

/// How bash reads text behind `$'` from position `i` on, up to the quote that ends it: the text, and
/// the position behind the quote.
pub open spec fn dollar_word(s: Seq<char>, i: int, acc: Seq<char>) -> Option<(Seq<char>, int)>
    decreases s.len() - i,
{
    if i < 0 || i >= s.len() {
        None
    } else if s[i] == '\'' {
        Some((acc, i + 1))
    } else if s[i] == '\\' {
        if i + 1 < s.len() {
            match dollar_meaning(s[i + 1]) {
                Some(c) => dollar_word(s, i + 2, acc.push(c)),
                None => None,
            }
        } else {
            None
        }
    } else {
        dollar_word(s, i + 1, acc.push(s[i]))
    }
}

proof fn dollar_body_reads_back(t: Seq<char>, i: int, s: Seq<char>, acc: Seq<char>)
    requires
        0 <= i <= t.len(),
        t.skip(i) == dollar_escaped(s) + "'"@,
    ensures
        dollar_word(t, i, acc) == Some((acc + s, t.len() as int)),
    decreases s.len(),
{
    reveal_strlit("'");
    reveal_strlit("\\\\");
    reveal_strlit("\\'");
    reveal_strlit("\\n");
    reveal_strlit("\\t");
    reveal_strlit("\\r");
    let f = |c: char| dollar_char(c);
    let u = t.skip(i);
    assert(forall|k: int| 0 <= k < u.len() ==> u[k] == t[i + k]);
    if s.len() == 0 {
        assert(u =~= "'"@);
        assert(t[i] == u[0]);
        assert(acc + s =~= acc);
    } else {
        let c = s[0];
        let rest = s.skip(1);
        first_char(s, f);
        let w = dollar_char(c);
        let tail = dollar_escaped(rest) + "'"@;
        assert(u =~= w + tail);
        assert(t.skip(i + w.len()) =~= u.skip(w.len() as int));
        assert(u.skip(w.len() as int) =~= tail);
        dollar_body_reads_back(t, i + w.len(), rest, acc.push(c));
        assert(acc.push(c) + rest =~= acc + s);
        assert(u[0] == w[0]);
        if w.len() == 2 {
            assert(u[1] == w[1]);
            assert(t[i] == '\\' && t[i + 1] == w[1]);
            assert(dollar_meaning(w[1]) == Some(c));
        }
    }
}

/// Bash reads an escaped value between `$'` and `'` as that value, and the quote behind it as its
/// end.
pub proof fn dollar_quoting_reads_back(s: Seq<char>)
    ensures
        dollar_word(dollar_escaped(s) + "'"@, 0, Seq::empty()) == Some(
            (s, (dollar_escaped(s) + "'"@).len() as int),
        ),
{
    let t = dollar_escaped(s) + "'"@;
    assert(t.skip(0) =~= t);
    dollar_body_reads_back(t, 0, s, Seq::empty());
    assert(Seq::<char>::empty() + s =~= s);
}

/// The bash text of a simple value: a string quoted, an integer in decimal, `1` or nothing for a
/// boolean, `''` for null. Other values have none.
pub open spec fn simple_text(t: JsonTree) -> Option<Seq<char>> {
    match t {
        JsonTree::Str(s) => Some(sh_escaped(s)),
        JsonTree::Int(i) => Some(text::signed_decimal(i)),
        JsonTree::Bool(b) => Some(if b { "1"@ } else { Seq::empty() }),
        JsonTree::Null => Some("''"@),
        _ => None,
    }
}

/// Writes a simple value for bash.
pub fn simple_to_sh(v: &serde_json::Value) -> (r: Option<String>)
    ensures
        match r {
            Some(s) => simple_text(json::json_tree(*v)) == Some(s@),
            None => simple_text(json::json_tree(*v)) is None,
        },
{
    match json::node_of(v) {
        JsonNode::Str(s) => Some(sh_escape(s.as_str())),
        JsonNode::Int(i) => Some(text::i64_text(i)),
        JsonNode::UInt(u) => Some(text::u64_text(u)),
        JsonNode::Bool(b) => Some(if b { "1".to_owned() } else { String::new() }),
        JsonNode::Null => Some("''".to_owned()),
        _ => None,
    }
}

/// The bash texts of the items of an array, if all are simple.
pub open spec fn simple_items(a: Seq<JsonTree>) -> Option<Seq<Seq<char>>> {
    if forall|i: int| 0 <= i < a.len() ==> simple_text(#[trigger] a[i]) is Some {
        Some(Seq::new(a.len(), |i: int| simple_text(a[i])->Some_0))
    } else {
        None
    }
}

/// The bash text of a member of an object: `['key']=value`.
pub open spec fn member_text(k: Seq<char>, v: Seq<char>) -> Seq<char> {
    "["@ + sh_escaped(k) + "]="@ + v
}

/// The bash texts of the members of an object, if all values are simple.
pub open spec fn simple_members(o: Seq<(Seq<char>, JsonTree)>) -> Option<Seq<Seq<char>>> {
    if forall|i: int| 0 <= i < o.len() ==> simple_text((#[trigger] o[i]).1) is Some {
        Some(Seq::new(o.len(), |i: int| member_text(o[i].0, simple_text(o[i].1)->Some_0)))
    } else {
        None
    }
}

fn items_to_sh(a: &Vec<serde_json::Value>) -> (r: Option<Vec<String>>)
    ensures
        match r {
            Some(v) => simple_items(json::trees(a@)) == Some(v.deep_view()),
            None => simple_items(json::trees(a@)) is None,
        },
{
    let mut out: Vec<String> = Vec::new();
    let ghost t = json::trees(a@);
    for i in 0..a.len()
        invariant
            t == json::trees(a@),
            out@.len() == i,
            forall|j: int| 0 <= j < i ==> simple_text(#[trigger] t[j]) == Some(out@[j]@),
    {
        match simple_to_sh(&a[i]) {
            Some(s) => {
                out.push(s);
            },
            None => {
                assert(simple_text(t[i as int]) is None);
                return None;
            },
        }
    }
    assert(out.deep_view() =~= Seq::new(t.len(), |i: int| simple_text(t[i])->Some_0));
    Some(out)
}

fn members_to_sh(o: &Vec<(String, serde_json::Value)>) -> (r: Option<Vec<String>>)
    ensures
        match r {
            Some(v) => simple_members(json::members(o@)) == Some(v.deep_view()),
            None => simple_members(json::members(o@)) is None,
        },
{
    let mut out: Vec<String> = Vec::new();
    let ghost m = json::members(o@);
    for i in 0..o.len()
        invariant
            m == json::members(o@),
            out@.len() == i,
            forall|j: int|
                0 <= j < i ==> simple_text((#[trigger] m[j]).1) is Some && out@[j]@ == member_text(
                    m[j].0,
                    simple_text(m[j].1)->Some_0,
                ),
    {
        match simple_to_sh(&o[i].1) {
            Some(s) => {
                let mut e = "[".to_owned();
                e.append(sh_escape(o[i].0.as_str()).as_str());
                e.append("]=");
                e.append(s.as_str());
                out.push(e);
            },
            None => {
                assert(simple_text(m[i as int].1) is None);
                return None;
            },
        }
    }
    assert(out.deep_view() =~= Seq::new(
        m.len(),
        |i: int| member_text(m[i].0, simple_text(m[i].1)->Some_0),
    ));
    Some(out)
}

/// The declaration of one attribute: a scalar, an array or an associative array, or nothing where
/// the name is no identifier or the value none of these.
pub open spec fn attr_line(k: Seq<char>, t: JsonTree) -> Seq<char> {
    if !bash_ident(k) {
        Seq::empty()
    } else {
        match simple_text(t) {
            Some(s) => "declare "@ + k + "="@ + s + "\n"@,
            None => match t {
                JsonTree::Arr(a) => match simple_items(a) {
                    Some(items) => "declare -a "@ + k + "=("@ + text::joined(items, " "@)
                        + " )\n"@,
                    None => Seq::empty(),
                },
                JsonTree::Obj(o) => match simple_members(o) {
                    Some(items) => "declare -A "@ + k + "=("@ + text::joined(items, " "@)
                        + " )\n"@,
                    None => Seq::empty(),
                },
                _ => Seq::empty(),
            },
        }
    }
}

/// The declarations of the members of an object, in order.
pub open spec fn attr_lines(o: Seq<(Seq<char>, JsonTree)>) -> Seq<char>
    decreases o.len(),
{
    if o.len() == 0 {
        Seq::empty()
    } else {
        attr_lines(o.drop_last()) + attr_line(o.last().0, o.last().1)
    }
}

/// The `.attrs.sh` of a JSON value: the declarations of an object's members, nothing for any
/// other value.
pub open spec fn attrs_sh(t: JsonTree) -> Seq<char> {
    match t {
        JsonTree::Obj(o) => attr_lines(o),
        _ => Seq::empty(),
    }
}

fn declaration(flag: &str, k: &str, items: &Vec<String>) -> (r: String)
    ensures
        r@ == flag@ + k@ + "=("@ + text::joined(items.deep_view(), " "@) + " )\n"@,
{
    let mut s = flag.to_owned();
    s.append(k);
    s.append("=(");
    s.append(text::join(items, " ").as_str());
    s.append(" )\n");
    s
}

fn declare(k: &str, v: &serde_json::Value) -> (r: String)
    ensures
        r@ == attr_line(k@, json::json_tree(*v)),
{
    if !is_valid_bash_ident(k) {
        return String::new();
    }
    match simple_to_sh(v) {
        Some(t) => {
            let mut s = "declare ".to_owned();
            s.append(k);
            s.append("=");
            s.append(t.as_str());
            s.append("\n");
            s
        },
        None => match json::node_of(v) {
            JsonNode::Arr(a) => match items_to_sh(&a) {
                Some(items) => declaration("declare -a ", k, &items),
                None => String::new(),
            },
            JsonNode::Obj(o) => match members_to_sh(&o) {
                Some(items) => declaration("declare -A ", k, &items),
                None => String::new(),
            },
            _ => String::new(),
        },
    }
}

/// Renders structured attributes as bash declarations, as Nix's `writeShell` does.
pub fn json_to_attrs_sh(val: &serde_json::Value) -> (r: String)
    ensures
        r@ == attrs_sh(json::json_tree(*val)),
{
    match json::node_of(val) {
        JsonNode::Obj(o) => {
            let mut out = String::new();
            let ghost m = json::members(o@);
            for i in 0..o.len()
                invariant
                    m == json::members(o@),
                    out@ == attr_lines(m.take(i as int)),
            {
                out.append(declare(o[i].0.as_str(), &o[i].1).as_str());
                proof {
                    assert(m.take(i + 1).drop_last() =~= m.take(i as int));
                }
            }
            assert(m.take(m.len() as int) =~= m);
            out
        },
        _ => String::new(),
    }
}

/// A value with the strings in it rewritten.
pub open spec fn rewritten_value(rw: Seq<(Seq<char>, Seq<char>)>, t: JsonTree) -> JsonTree
    decreases t,
{
    match t {
        JsonTree::Str(s) => JsonTree::Str(rewrite::rewritten(rw, s)),
        JsonTree::Arr(a) => JsonTree::Arr(rewritten_items(rw, a)),
        JsonTree::Obj(o) => JsonTree::Obj(rewritten_members(rw, o)),
        _ => t,
    }
}

/// The items of an array, rewritten.
pub open spec fn rewritten_items(rw: Seq<(Seq<char>, Seq<char>)>, a: Seq<JsonTree>) -> Seq<JsonTree>
    decreases a,
{
    if a.len() == 0 {
        Seq::empty()
    } else {
        let rest = a.drop_last();
        rewritten_items(rw, rest).push(rewritten_value(rw, a[a.len() - 1]))
    }
}

/// The members of an object, with their values rewritten.
pub open spec fn rewritten_members(
    rw: Seq<(Seq<char>, Seq<char>)>,
    o: Seq<(Seq<char>, JsonTree)>,
) -> Seq<(Seq<char>, JsonTree)>
    decreases o,
{
    if o.len() == 0 {
        Seq::empty()
    } else {
        let rest = o.drop_last();
        rewritten_members(rw, rest).push(
            (o[o.len() - 1].0, rewritten_value(rw, o[o.len() - 1].1)),
        )
    }
}

/// Rewriting keeps the names of the members.
proof fn names_stay(rw: Seq<(Seq<char>, Seq<char>)>, o: Seq<(Seq<char>, JsonTree)>)
    ensures
        rewritten_members(rw, o).len() == o.len(),
        forall|i: int| 0 <= i < o.len() ==> (#[trigger] rewritten_members(rw, o)[i]).0 == o[i].0,
        strmap::ascending(o) ==> strmap::ascending(rewritten_members(rw, o)),
    decreases o.len(),
{
    if o.len() > 0 {
        names_stay(rw, o.drop_last());
    }
}

fn rewrite_json_value(v: &serde_json::Value, rewriter: &PathRewriter) -> (r: serde_json::Value)
    ensures
        json::json_tree(r) == rewritten_value(rewriter@, json::json_tree(*v)),
    decreases json::json_tree(*v),
{
    let ghost t = json::json_tree(*v);
    match json::node_of(v) {
        JsonNode::Str(s) => json::string_value(rewriter.rewrite(s.as_str())),
        JsonNode::Arr(a) => {
            let ghost ts = json::trees(a@);
            let mut out: Vec<serde_json::Value> = Vec::new();
            for i in 0..a.len()
                invariant
                    ts == json::trees(a@),
                    t == json::json_tree(*v),
                    t == JsonTree::Arr(ts),
                    json::trees(out@) == rewritten_items(rewriter@, ts.take(i as int)),
            {
                let ghost before = out@;
                assert(decreases_to!(t => t->Arr_0));
                assert(decreases_to!(ts => ts[i as int]));
                let new = rewrite_json_value(&a[i], rewriter);
                out.push(new);
                proof {
                    assert(ts.take(i + 1).drop_last() =~= ts.take(i as int));
                    assert(ts.take(i + 1)[i as int] == ts[i as int]);
                    assert(json::trees(out@) =~= json::trees(before).push(json::json_tree(new)));
                }
            }
            assert(ts.take(ts.len() as int) =~= ts);
            json::array_value(out)
        },
        JsonNode::Obj(o) => {
            let ghost ms = json::members(o@);
            let mut out: Vec<(String, serde_json::Value)> = Vec::new();
            for i in 0..o.len()
                invariant
                    ms == json::members(o@),
                    t == json::json_tree(*v),
                    t == JsonTree::Obj(ms),
                    json::members(out@) == rewritten_members(rewriter@, ms.take(i as int)),
            {
                let ghost before = out@;
                assert(decreases_to!(t => t->Obj_0));
                assert(decreases_to!(ms => ms[i as int]));
                assert(decreases_to!(ms[i as int] => ms[i as int].1));
                let new = rewrite_json_value(&o[i].1, rewriter);
                out.push((o[i].0.clone(), new));
                proof {
                    assert(ms.take(i + 1).drop_last() =~= ms.take(i as int));
                    assert(ms.take(i + 1)[i as int] == ms[i as int]);
                    assert(json::members(out@) =~= json::members(before).push(
                        (ms[i as int].0, json::json_tree(new)),
                    ));
                }
            }
            proof {
                assert(ms.take(ms.len() as int) =~= ms);
                names_stay(rewriter@, ms);
            }
            json::object_value(out)
        },
        _ => v.clone(),
    }
}

/// The object that holds the given strings.
pub open spec fn strings_object(m: Map<Seq<char>, Seq<char>>) -> JsonTree {
    let l = strmap::listing(m);
    JsonTree::Obj(Seq::new(l.len(), |i: int| (l[i].0, JsonTree::Str(l[i].1))))
}

/// The members of an object with `outputs` and, where given, `src` replaced.
pub open spec fn redirected(
    o: Seq<(Seq<char>, JsonTree)>,
    outputs: Map<Seq<char>, Seq<char>>,
    src: Option<Seq<char>>,
) -> Map<Seq<char>, JsonTree> {
    let m = strmap::as_map(o).insert("outputs"@, strings_object(outputs));
    match src {
        Some(p) => m.insert("src"@, JsonTree::Str(p)),
        None => m,
    }
}

/// Structured attributes with `outputs` and `src` redirected and all strings rewritten. Only an
/// object is changed.
pub open spec fn rewritten_attrs(
    t: JsonTree,
    outputs: Map<Seq<char>, Seq<char>>,
    rw: Seq<(Seq<char>, Seq<char>)>,
    src: Option<Seq<char>>,
) -> JsonTree {
    match t {
        JsonTree::Obj(o) => JsonTree::Obj(
            rewritten_members(rw, strmap::listing(redirected(o, outputs, src))),
        ),
        _ => t,
    }
}

/// The text of the rewritten attributes; a text that is no JSON, or a value that cannot be
/// written, leaves the text as it is.
pub open spec fn rewritten_attrs_text(
    text: Seq<char>,
    outputs: Map<Seq<char>, Seq<char>>,
    rw: Seq<(Seq<char>, Seq<char>)>,
    src: Option<Seq<char>>,
) -> Seq<char> {
    match json::json_parsed(text) {
        Ok(t) => match json::json_written(rewritten_attrs(t, outputs, rw, src)) {
            Some(s) => s,
            None => text,
        },
        Err(_) => text,
    }
}

/// A JSON value as a member of a map.
pub struct Member {
    pub value: serde_json::Value,
}

impl DeepView for Member {
    type V = JsonTree;

    open spec fn deep_view(&self) -> JsonTree {
        json::json_tree(self.value)
    }
}

fn strings_value(m: &StrMap<String>) -> (r: serde_json::Value)
    ensures
        json::json_tree(r) == strings_object(m@),
{
    let ghost l = strmap::listing(m@);
    let mut out: Vec<(String, serde_json::Value)> = Vec::new();
    let n: usize = m.len();
    for i in 0..n
        invariant
            l == strmap::listing(m@),
            n == l.len(),
            out@.len() == i,
            forall|j: int|
                0 <= j < i ==> (#[trigger] out@[j]).0@ == l[j].0 && json::json_tree(out@[j].1)
                    == JsonTree::Str(l[j].1),
    {
        out.push((m.key(i).clone(), json::string_value(m.value(i).clone())));
    }
    proof {
        let e = Seq::new(l.len(), |i: int| (l[i].0, JsonTree::Str(l[i].1)));
        assert(json::members(out@) =~= e);
        assert(strmap::ascending(e));
    }
    json::object_value(out)
}

/// Redirects and rewrites structured attributes that are already parsed.
pub fn rewrite_attrs_value(
    val: &serde_json::Value,
    outputs: &StrMap<String>,
    rewriter: &PathRewriter,
    src_override: Option<&str>,
) -> (r: serde_json::Value)
    ensures
        json::json_tree(r) == rewritten_attrs(
            json::json_tree(*val),
            outputs@,
            rewriter@,
            match src_override {
                Some(p) => Some(p@),
                None => None,
            },
        ),
{
    match json::node_of(val) {
        JsonNode::Obj(o) => {
            let ghost ms = json::members(o@);
            let mut map: StrMap<Member> = StrMap::new();
            assert(strmap::as_map(ms.take(0)) =~= Map::empty());
            for i in 0..o.len()
                invariant
                    ms == json::members(o@),
                    strmap::ascending(ms),
                    map@ == strmap::as_map(ms.take(i as int)),
            {
                proof {
                    strmap::take_map(ms, i as int);
                }
                map.insert(o[i].0.clone(), Member { value: o[i].1.clone() });
            }
            assert(ms.take(ms.len() as int) =~= ms);
            map.insert("outputs".to_owned(), Member { value: strings_value(outputs) });
            match src_override {
                Some(p) => {
                    map.insert("src".to_owned(), Member { value: json::string_value(p.to_owned()) });
                },
                None => {},
            }
            let n: usize = map.len();
            let ghost l = strmap::listing(map@);
            let mut out: Vec<(String, serde_json::Value)> = Vec::new();
            assert(l.take(0) =~= Seq::empty());
            for i in 0..n
                invariant
                    l == strmap::listing(map@),
                    n == l.len(),
                    json::members(out@) == rewritten_members(rewriter@, l.take(i as int)),
            {
                let ghost before = out@;
                let new = rewrite_json_value(&map.value(i).value, rewriter);
                out.push((map.key(i).clone(), new));
                proof {
                    assert(l.take(i + 1).drop_last() =~= l.take(i as int));
                    assert(l.take(i + 1)[i as int] == l[i as int]);
                    assert(json::members(out@) =~= json::members(before).push(
                        (l[i as int].0, json::json_tree(new)),
                    ));
                }
            }
            proof {
                assert(l.take(l.len() as int) =~= l);
                names_stay(rewriter@, l);
            }
            json::object_value(out)
        },
        _ => val.clone(),
    }
}

/// Rewrites the output paths and dependency paths in the text of structured attributes, so that
/// the builder sees places in the cache. `outputs` becomes an object from output names to paths,
/// and `src` is replaced where an override is given.
pub fn rewrite_structured_attrs_json(
    json_str: &str,
    outputs: &StrMap<String>,
    rewriter: &PathRewriter,
    src_override: Option<&str>,
) -> (r: String)
    ensures
        r@ == rewritten_attrs_text(
            json_str@,
            outputs@,
            rewriter@,
            match src_override {
                Some(p) => Some(p@),
                None => None,
            },
        ),
{
    match json::parse_json(json_str) {
        Ok(v) => match json::write_json(
            &rewrite_attrs_value(&v, outputs, rewriter, src_override),
        ) {
            Some(s) => s,
            None => json_str.to_owned(),
        },
        Err(_) => json_str.to_owned(),
    }
}

/// How a shell reads the text behind the equals sign of an assignment: letters, digits, underscores
/// and dashes stand for themselves, and nothing for the empty value; else it is a quoted word.
pub open spec fn sh_value(s: Seq<char>) -> Option<Seq<char>> {
    if forall|i: int| 0 <= i < s.len() ==> ident_rest(#[trigger] s[i]) || s[i] == '-' {
        Some(s)
    } else {
        sh_word(s, 0, false, Seq::empty())
    }
}

/// The shell reads the text of a string as that string, that of `true` as `1`, and that of `false`
/// and of null as the empty value, so that it tells true from the other two. That of an integer it
/// reads as its digits, behind a minus sign where it is negative.
pub proof fn simple_values_read_back(t: JsonTree)
    ensures
        t is Str || t is Int || t is Bool || t is Null <==> simple_text(t) is Some,
        t matches JsonTree::Str(s) ==> sh_value(simple_text(t)->Some_0) == Some(s),
        t == JsonTree::Bool(true) ==> sh_value(simple_text(t)->Some_0) == Some(seq!['1']),
        t == JsonTree::Bool(false) ==> sh_value(simple_text(t)->Some_0) == Some(
            Seq::<char>::empty(),
        ),
        t is Null ==> sh_value(simple_text(t)->Some_0) == Some(Seq::<char>::empty()),
        t matches JsonTree::Int(i) ==> {
            let w = simple_text(t)->Some_0;
            &&& sh_value(w) == Some(w)
            &&& i >= 0 ==> text::digits_value(w) == Some(i as nat)
            &&& i < 0 ==> w.len() > 0 && w[0] == '-' && text::digits_value(w.skip(1)) == Some(
                (-i) as nat,
            )
        },
{
    reveal_strlit("1");
    reveal_strlit("''");
    match t {
        JsonTree::Str(s) => {
            quoting_reads_back(s);
            assert(sh_escaped(s)[0] == '\'');
        },
        JsonTree::Int(i) => {
            let n = if i < 0 {
                (-i) as nat
            } else {
                i as nat
            };
            text::decimal_value(n);
            let w = simple_text(t)->Some_0;
            assert forall|k: int| 0 <= k < w.len() implies ident_rest(#[trigger] w[k]) || w[k]
                == '-' by {
                if i < 0 {
                    if k > 0 {
                        assert(w[k] == text::decimal(n)[k - 1]);
                    }
                } else {
                    assert(w[k] == text::decimal(n)[k]);
                }
            }
            if i < 0 {
                assert(w.skip(1) =~= text::decimal(n));
            }
        },
        JsonTree::Bool(b) => {
            assert("1"@ =~= seq!['1']);
        },
        JsonTree::Null => {
            let w = "''"@;
            assert(w[0] == '\'');
            reveal_with_fuel(sh_word, 3);
        },
        _ => {},
    }
}

/// Two values that the shell is to tell apart are read as different: a string from another, an
/// integer from another, and true from false and from null.
pub proof fn values_are_told_apart(a: JsonTree, b: JsonTree)
    requires
        (a is Str && b is Str && a != b) || (a is Int && b is Int && a != b) || (a
            == JsonTree::Bool(true) && (b == JsonTree::Bool(false) || b is Null)),
    ensures
        sh_value(simple_text(a)->Some_0) != sh_value(simple_text(b)->Some_0),
{
    simple_values_read_back(a);
    simple_values_read_back(b);
    match (a, b) {
        (JsonTree::Int(i), JsonTree::Int(j)) => {
            let n = if j < 0 {
                (-j) as nat
            } else {
                j as nat
            };
            let m = if i < 0 {
                (-i) as nat
            } else {
                i as nat
            };
            text::decimal_value(n);
            text::decimal_value(m);
            if i < 0 && j >= 0 {
                assert(simple_text(b)->Some_0 == text::decimal(n));
                assert(text::decimal(n)[0] != '-');
            }
            if j < 0 && i >= 0 {
                assert(simple_text(a)->Some_0 == text::decimal(m));
                assert(text::decimal(m)[0] != '-');
            }
        },
        _ => {
            assert(seq!['1'].len() == 1);
        },
    }
}

/// The strings that stand anywhere in a value, in order.
pub open spec fn strings_in(t: JsonTree) -> Seq<Seq<char>>
    decreases t,
{
    match t {
        JsonTree::Str(s) => seq![s],
        JsonTree::Arr(a) => strings_in_items(a),
        JsonTree::Obj(o) => strings_in_members(o),
        _ => Seq::empty(),
    }
}

/// The strings that stand anywhere in the items of an array, in order.
pub open spec fn strings_in_items(a: Seq<JsonTree>) -> Seq<Seq<char>>
    decreases a,
{
    if a.len() == 0 {
        Seq::empty()
    } else {
        strings_in_items(a.drop_last()) + strings_in(a[a.len() - 1])
    }
}

/// The strings that stand anywhere in the values of an object, in order.
pub open spec fn strings_in_members(o: Seq<(Seq<char>, JsonTree)>) -> Seq<Seq<char>>
    decreases o,
{
    if o.len() == 0 {
        Seq::empty()
    } else {
        strings_in_members(o.drop_last()) + strings_in(o[o.len() - 1].1)
    }
}

/// Every string in a value is rewritten, however deep it stands.
pub proof fn all_strings_are_rewritten(rw: Seq<(Seq<char>, Seq<char>)>, t: JsonTree)
    ensures
        strings_in(rewritten_value(rw, t)) == strings_in(t).map_values(
            |s: Seq<char>| rewrite::rewritten(rw, s),
        ),
    decreases t,
{
    let f = |s: Seq<char>| rewrite::rewritten(rw, s);
    match t {
        JsonTree::Str(s) => {
            assert(strings_in(rewritten_value(rw, t)) =~= strings_in(t).map_values(f));
        },
        JsonTree::Arr(a) => {
            item_strings_are_rewritten(rw, a);
        },
        JsonTree::Obj(o) => {
            member_strings_are_rewritten(rw, o);
        },
        _ => {
            assert(strings_in(t).map_values(f) =~= Seq::empty());
        },
    }
}

proof fn item_strings_are_rewritten(rw: Seq<(Seq<char>, Seq<char>)>, a: Seq<JsonTree>)
    ensures
        strings_in_items(rewritten_items(rw, a)) == strings_in_items(a).map_values(
            |s: Seq<char>| rewrite::rewritten(rw, s),
        ),
    decreases a,
{
    let f = |s: Seq<char>| rewrite::rewritten(rw, s);
    if a.len() == 0 {
        assert(strings_in_items(a).map_values(f) =~= Seq::empty());
    } else {
        let b = a.drop_last();
        item_strings_are_rewritten(rw, b);
        all_strings_are_rewritten(rw, a[a.len() - 1]);
        let r = rewritten_items(rw, a);
        assert(r.drop_last() =~= rewritten_items(rw, b));
        assert(strings_in_items(r) =~= strings_in_items(a).map_values(f));
    }
}

proof fn member_strings_are_rewritten(
    rw: Seq<(Seq<char>, Seq<char>)>,
    o: Seq<(Seq<char>, JsonTree)>,
)
    ensures
        strings_in_members(rewritten_members(rw, o)) == strings_in_members(o).map_values(
            |s: Seq<char>| rewrite::rewritten(rw, s),
        ),
    decreases o,
{
    let f = |s: Seq<char>| rewrite::rewritten(rw, s);
    if o.len() == 0 {
        assert(strings_in_members(o).map_values(f) =~= Seq::empty());
    } else {
        let b = o.drop_last();
        member_strings_are_rewritten(rw, b);
        all_strings_are_rewritten(rw, o[o.len() - 1].1);
        let r = rewritten_members(rw, o);
        assert(r.drop_last() =~= rewritten_members(rw, b));
        assert(strings_in_members(r) =~= strings_in_members(o).map_values(f));
    }
}

/// Of the attributes of an object, `outputs` becomes the object of the output places and `src` the
/// given directory, if one is given. All others stay.
pub proof fn only_outputs_and_source_are_redirected(
    o: Seq<(Seq<char>, JsonTree)>,
    outputs: Map<Seq<char>, Seq<char>>,
    src: Option<Seq<char>>,
    k: Seq<char>,
)
    ensures
        redirected(o, outputs, src).contains_key("outputs"@),
        redirected(o, outputs, src)["outputs"@] matches JsonTree::Obj(m) && m.len()
            == strmap::listing(outputs).len() && forall|i: int|
            0 <= i < m.len() ==> (#[trigger] m[i]).0 == strmap::listing(outputs)[i].0 && m[i].1
                == JsonTree::Str(strmap::listing(outputs)[i].1),
        src matches Some(p) ==> redirected(o, outputs, src).contains_key("src"@) && redirected(
            o,
            outputs,
            src,
        )["src"@] == JsonTree::Str(p),
        k != "outputs"@ && (src is Some ==> k != "src"@) ==> (redirected(
            o,
            outputs,
            src,
        ).contains_key(k) <==> strmap::has_key(o, k)),
        k != "outputs"@ && (src is Some ==> k != "src"@) && strmap::has_key(o, k) ==> redirected(
            o,
            outputs,
            src,
        )[k] == strmap::as_map(o)[k],
{
    reveal_strlit("outputs");
    reveal_strlit("src");
    assert("outputs"@.len() != "src"@.len());
}

/// Bash can name what consists of letters, digits and underscores and does not begin with a digit,
/// and nothing else.
pub proof fn names_are_letters_digits_and_underscores(s: Seq<char>, i: int)
    requires
        0 <= i < s.len(),
    ensures
        bash_ident(s) ==> ('a' <= s[i] <= 'z' || 'A' <= s[i] <= 'Z' || s[i] == '_' || (i > 0 && '0'
            <= s[i] <= '9')),
        (forall|j: int|
            0 <= j < s.len() ==> ('a' <= #[trigger] s[j] <= 'z' || 'A' <= s[j] <= 'Z' || s[j] == '_'
                || (j > 0 && '0' <= s[j] <= '9'))) ==> bash_ident(s),
        !bash_ident(Seq::empty()),
{
}

/// A name that bash cannot have leaves no declaration, and neither does an array or an object that
/// holds an array or an object. Anything else that is no array and no object is declared under its
/// name, with a word that the shell reads as the value.
pub proof fn attributes_are_declared(k: Seq<char>, t: JsonTree)
    ensures
        !bash_ident(k) ==> attr_line(k, t).len() == 0,
        bash_ident(k) && t is Str ==> ({
            let d = attr_line(k, t);
            let w = d.subrange(9 + k.len() as int, d.len() - 1);
            &&& d == "declare "@ + k + "="@ + w + "\n"@
            &&& sh_value(w) == Some(t->Str_0)
        }),
        t matches JsonTree::Arr(a) ==> (exists|i: int|
            0 <= i < a.len() && (#[trigger] a[i] is Arr || a[i] is Obj)) ==> attr_line(k, t).len()
            == 0,
        t matches JsonTree::Obj(o) ==> (exists|i: int|
            0 <= i < o.len() && (#[trigger] o[i].1 is Arr || o[i].1 is Obj)) ==> attr_line(k, t).len()
            == 0,
{
    match t {
        JsonTree::Arr(a) => {
            if exists|i: int| 0 <= i < a.len() && (#[trigger] a[i] is Arr || a[i] is Obj) {
                let i = choose|i: int| 0 <= i < a.len() && (#[trigger] a[i] is Arr || a[i] is Obj);
                assert(simple_text(a[i]) is None);
            }
        },
        JsonTree::Obj(o) => {
            if exists|i: int| 0 <= i < o.len() && (#[trigger] o[i].1 is Arr || o[i].1 is Obj) {
                let i = choose|i: int|
                    0 <= i < o.len() && (#[trigger] o[i].1 is Arr || o[i].1 is Obj);
                assert(simple_text(o[i].1) is None);
            }
        },
        JsonTree::Str(s) => {
            if bash_ident(k) {
                reveal_strlit("declare ");
                reveal_strlit("=");
                reveal_strlit("\n");
                simple_values_read_back(t);
                let d = attr_line(k, t);
                assert(d.subrange(9 + k.len() as int, d.len() - 1) =~= simple_text(t)->Some_0);
            }
        },
        _ => {},
    }
}

/// The items of an array of strings stand in its declaration in order, each as a word that the shell
/// reads as the string; the members of an object do so behind their names, which are read back too.
pub proof fn elements_are_declared_in_order(
    a: Seq<JsonTree>,
    o: Seq<(Seq<char>, JsonTree)>,
    i: int,
)
    requires
        forall|j: int| 0 <= j < a.len() ==> (#[trigger] a[j]) is Str,
        forall|j: int| 0 <= j < o.len() ==> (#[trigger] o[j]).1 is Str,
    ensures
        simple_items(a) is Some,
        simple_items(a)->Some_0.len() == a.len(),
        0 <= i < a.len() ==> sh_value(simple_items(a)->Some_0[i]) == Some(a[i]->Str_0),
        simple_members(o) is Some,
        simple_members(o)->Some_0.len() == o.len(),
        0 <= i < o.len() ==> exists|n: Seq<char>, w: Seq<char>|
            #![trigger sh_value(n), sh_value(w)]
            simple_members(o)->Some_0[i] == seq!['['] + n + seq![']', '='] + w && sh_value(n) == Some(
                o[i].0,
            ) && sh_value(w) == Some(o[i].1->Str_0),
{
    assert forall|j: int| 0 <= j < a.len() implies simple_text(#[trigger] a[j]) is Some by {
        simple_values_read_back(a[j]);
    }
    assert forall|j: int| 0 <= j < o.len() implies simple_text((#[trigger] o[j]).1) is Some by {
        simple_values_read_back(o[j].1);
    }
    if 0 <= i < a.len() {
        simple_values_read_back(a[i]);
    }
    if 0 <= i < o.len() {
        simple_values_read_back(o[i].1);
        simple_values_read_back(JsonTree::Str(o[i].0));
        reveal_strlit("[");
        reveal_strlit("]=");
        let n = sh_escaped(o[i].0);
        let w = simple_text(o[i].1)->Some_0;
        assert("["@ =~= seq!['[']);
        assert("]="@ =~= seq![']', '=']);
        assert(simple_text(JsonTree::Str(o[i].0)) == Some(n));
        assert(sh_value(n) == Some(o[i].0) && sh_value(w) == Some(o[i].1->Str_0));
        assert(simple_members(o)->Some_0[i] == seq!['['] + n + seq![']', '='] + w);
    }
}

/// Every member of an object has its declaration.
pub proof fn every_attribute_is_declared(o: Seq<(Seq<char>, JsonTree)>, i: int)
    requires
        0 <= i < o.len(),
    ensures
        text::occurs(attr_lines(o), attr_line(o[i].0, o[i].1)),
    decreases o.len(),
{
    let line = attr_line(o[i].0, o[i].1);
    let f = o.drop_last();
    let s = attr_lines(o);
    if i == o.len() - 1 {
        let n = attr_lines(f).len() as int;
        assert(s.subrange(n, n + line.len()) =~= line);
        assert(text::has_at(s, n, line));
    } else {
        assert(f[i] == o[i]);
        every_attribute_is_declared(f, i);
        let n = choose|n: int| text::has_at(attr_lines(f), n, line);
        assert(s.subrange(n, n + line.len()) =~= attr_lines(f).subrange(n, n + line.len()));
        assert(text::has_at(s, n, line));
    }
}

proof fn members_are_rewritten_in_place(
    rw: Seq<(Seq<char>, Seq<char>)>,
    o: Seq<(Seq<char>, JsonTree)>,
    i: int,
)
    requires
        0 <= i < o.len(),
    ensures
        rewritten_members(rw, o).len() == o.len(),
        rewritten_members(rw, o)[i] == (o[i].0, rewritten_value(rw, o[i].1)),
    decreases o.len(),
{
    let f = o.drop_last();
    let n = o.len() - 1;
    let m = rewritten_members(rw, f);
    assert(rewritten_members(rw, o) == m.push((o[n].0, rewritten_value(rw, o[n].1))));
    if f.len() == 0 {
        assert(m.len() == 0);
    } else {
        let k = if i < n {
            i
        } else {
            0
        };
        members_are_rewritten_in_place(rw, f, k);
        assert(f[k] == o[k]);
    }
}

/// Attributes keep their names, and the value of each is rewritten after `outputs` and `src` are
/// redirected. What is no object stays as it is, and a text that is no JSON does too.
pub proof fn attributes_keep_their_names(
    o: Seq<(Seq<char>, JsonTree)>,
    outputs: Map<Seq<char>, Seq<char>>,
    rw: Seq<(Seq<char>, Seq<char>)>,
    src: Option<Seq<char>>,
    t: JsonTree,
    s: Seq<char>,
    i: int,
)
    requires
        0 <= i < strmap::listing(redirected(o, outputs, src)).len(),
    ensures
        rewritten_attrs(JsonTree::Obj(o), outputs, rw, src) matches JsonTree::Obj(m) && ({
            let l = strmap::listing(redirected(o, outputs, src));
            m.len() == l.len() && m[i].0 == l[i].0 && m[i].1 == rewritten_value(rw, l[i].1)
        }),
        !(t is Obj) ==> rewritten_attrs(t, outputs, rw, src) == t,
        json::json_parsed(s) is Err ==> rewritten_attrs_text(s, outputs, rw, src) == s,
        json::json_parsed(s) == Ok::<JsonTree, Seq<char>>(t) && json::json_written(
            rewritten_attrs(t, outputs, rw, src),
        ) is Some ==> Some(rewritten_attrs_text(s, outputs, rw, src)) == json::json_written(
            rewritten_attrs(t, outputs, rw, src),
        ),
{
    members_are_rewritten_in_place(rw, strmap::listing(redirected(o, outputs, src)), i);
}

/// The words of an array of strings, and those of an object, stand between brackets with a blank
/// between two of them, and the one is declared as a list and the other as a table.
pub proof fn lists_and_tables_are_declared(
    k: Seq<char>,
    a: Seq<JsonTree>,
    o: Seq<(Seq<char>, JsonTree)>,
)
    requires
        bash_ident(k),
        forall|j: int| 0 <= j < a.len() ==> (#[trigger] a[j]) is Str,
        forall|j: int| 0 <= j < o.len() ==> (#[trigger] o[j]).1 is Str,
    ensures
        attr_line(k, JsonTree::Arr(a)) == "declare -a "@ + k + "=("@ + text::joined(
            simple_items(a)->Some_0,
            seq![' '],
        ) + " )\n"@,
        attr_line(k, JsonTree::Obj(o)) == "declare -A "@ + k + "=("@ + text::joined(
            simple_members(o)->Some_0,
            seq![' '],
        ) + " )\n"@,
{
    reveal_strlit(" ");
    assert(" "@ =~= seq![' ']);
    elements_are_declared_in_order(a, o, 0);
}

} // verus!
