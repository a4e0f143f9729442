//! The text of a derivation as Nix writes it, and that it reads as what was written.
use crate::drv;
use crate::drv::{DrvView, Item, Output, OutputView};
use crate::strmap;
use crate::text;
use vstd::prelude::*;
use vstd::utf8::encode_utf8;

verus! {

/// A character inside a string: quotes, backslashes and line ends are escaped.
pub open spec fn written_char(c: char) -> Seq<u8> {
    if c == '"' {
        seq![92u8, 34]
    } else if c == '\\' {
        seq![92u8, 92]
    } else if c == '\n' {
        seq![92u8, 110]
    } else if c == '\r' {
        seq![92u8, 114]
    } else if c == '\t' {
        seq![92u8, 116]
    } else {
        seq![(c as int) as u8]
    }
}

/// The characters of a string.
pub open spec fn written_chars(s: Seq<char>) -> Seq<u8>
    decreases s.len(),
{
    if s.len() == 0 {
        Seq::empty()
    } else {
        written_char(s[0]) + written_chars(s.skip(1))
    }
}

/// A string between quotes.
pub open spec fn written_string(s: Seq<char>) -> Seq<u8> {
    seq![34u8] + written_chars(s) + seq![34u8]
}

/// Every character of a string is one byte.
pub open spec fn of_bytes(s: Seq<char>) -> bool {
    forall|i: int| 0 <= i < s.len() ==> (#[trigger] s[i]) as int <= 255
}

/// Items with commas between them.
pub open spec fn with_commas<V>(vs: Seq<V>, write: spec_fn(V) -> Seq<u8>) -> Seq<u8>
    decreases vs.len(),
{
    if vs.len() == 0 {
        Seq::empty()
    } else if vs.len() == 1 {
        write(vs[0])
    } else {
        write(vs[0]) + seq![44u8] + with_commas(vs.skip(1), write)
    }
}

/// A list between brackets.
pub open spec fn written_list<V>(vs: Seq<V>, write: spec_fn(V) -> Seq<u8>) -> Seq<u8> {
    seq![91u8] + with_commas(vs, write) + seq![93u8]
}

/// How strings are written.
pub open spec fn string_writer() -> spec_fn(Seq<char>) -> Seq<u8> {
    |s: Seq<char>| written_string(s)
}

/// How variables are written.
pub open spec fn pair_writer() -> spec_fn((Seq<char>, Seq<char>)) -> Seq<u8> {
    |p: (Seq<char>, Seq<char>)|
        seq![40u8] + written_string(p.0) + seq![44u8] + written_string(p.1) + seq![41u8]
}

/// How outputs are written.
pub open spec fn output_writer() -> spec_fn((Seq<char>, OutputView)) -> Seq<u8> {
    |o: (Seq<char>, OutputView)|
        seq![40u8] + written_string(o.0) + seq![44u8] + written_string(o.1.path) + seq![44u8]
            + written_string(o.1.hash_algo) + seq![44u8] + written_string(o.1.hash) + seq![41u8]
}

/// How input derivations are written.
pub open spec fn input_writer() -> spec_fn((Seq<char>, Seq<Seq<char>>)) -> Seq<u8> {
    |i: (Seq<char>, Seq<Seq<char>>)|
        seq![40u8] + written_string(i.0) + seq![44u8] + written_list(i.1, string_writer())
            + seq![41u8]
}

/// A derivation as lists.
pub struct Written {
    pub outputs: Seq<(Seq<char>, OutputView)>,
    pub inputs: Seq<(Seq<char>, Seq<Seq<char>>)>,
    pub sources: Seq<Seq<char>>,
    pub platform: Seq<char>,
    pub builder: Seq<char>,
    pub args: Seq<Seq<char>>,
    pub env: Seq<(Seq<char>, Seq<char>)>,
}

/// The text of a derivation.
pub open spec fn written_drv(d: Written) -> Seq<u8> {
    encode_utf8("Derive("@) + (written_list(d.outputs, output_writer()) + seq![44u8] + (
    written_list(d.inputs, input_writer()) + seq![44u8] + behind_inputs(d)))
}

/// What stands behind the input derivations.
pub open spec fn behind_inputs(d: Written) -> Seq<u8> {
    written_list(d.sources, string_writer()) + seq![44u8] + (written_string(d.platform) + seq![44u8]
        + (written_string(d.builder) + seq![44u8] + (written_list(d.args, string_writer())
        + seq![44u8] + (written_list(d.env, pair_writer()) + seq![41u8] + Seq::<u8>::empty()))))
}

/// Whether all strings of a list are of bytes.
pub open spec fn all_of_bytes(l: Seq<Seq<char>>) -> bool {
    forall|i: int| 0 <= i < l.len() ==> of_bytes(#[trigger] l[i])
}

/// Whether all strings of an output are of bytes.
pub open spec fn output_of_bytes(o: (Seq<char>, OutputView)) -> bool {
    of_bytes(o.0) && of_bytes(o.1.path) && of_bytes(o.1.hash_algo) && of_bytes(o.1.hash)
}

/// Whether all strings of a derivation are of bytes.
pub open spec fn drv_of_bytes(d: Written) -> bool {
    &&& forall|i: int| 0 <= i < d.outputs.len() ==> output_of_bytes(#[trigger] d.outputs[i])
    &&& forall|i: int|
        0 <= i < d.inputs.len() ==> of_bytes((#[trigger] d.inputs[i]).0) && all_of_bytes(
            d.inputs[i].1,
        )
    &&& all_of_bytes(d.sources)
    &&& of_bytes(d.platform)
    &&& of_bytes(d.builder)
    &&& all_of_bytes(d.args)
    &&& forall|i: int|
        0 <= i < d.env.len() ==> of_bytes((#[trigger] d.env[i]).0) && of_bytes(d.env[i].1)
}

proof fn two_parts(s: Seq<u8>, i: int, a: Seq<u8>, b: Seq<u8>)
    requires
        text::has_at(s, i, a + b),
    ensures
        text::has_at(s, i, a),
        text::has_at(s, i + a.len(), b),
{
    let w = s.subrange(i, i + a.len() + b.len());
    assert(s.subrange(i, i + a.len()) =~= w.take(a.len() as int));
    assert(w.take(a.len() as int) =~= a);
    assert(s.subrange(i + a.len(), i + a.len() + b.len()) =~= w.skip(a.len() as int));
    assert(w.skip(a.len() as int) =~= b);
}

proof fn one_byte(s: Seq<u8>, i: int, b: u8)
    requires
        text::has_at(s, i, seq![b]),
    ensures
        0 <= i < s.len(),
        s[i] == b,
{
    assert(s.subrange(i, i + 1)[0] == b);
}

proof fn no_less_than_zero(c: char)
    ensures
        0 <= c as int,
{
}

proof fn chars_read_back(input: Seq<u8>, pos: int, s: Seq<char>, acc: Seq<char>)
    requires
        of_bytes(s),
        text::has_at(input, pos, written_chars(s) + seq![34u8]),
    ensures
        drv::read_string_rest(input, pos, acc) == Ok::<(Seq<char>, int), Seq<char>>(
            (acc + s, pos + written_chars(s).len() + 1),
        ),
    decreases s.len(),
{
    if s.len() == 0 {
        assert(written_chars(s) + seq![34u8] =~= seq![34u8]);
        one_byte(input, pos, 34);
        assert(acc + s =~= acc);
    } else {
        let c = s[0];
        let rest = s.skip(1);
        let w = written_char(c);
        let tail = written_chars(rest) + seq![34u8];
        assert(written_chars(s) + seq![34u8] =~= w + tail);
        two_parts(input, pos, w, tail);
        assert(acc.push(c) + rest =~= acc + s);
        if c == '"' || c == '\\' || c == '\n' || c == '\r' || c == '\t' {
            assert(w =~= seq![92u8] + seq![w[1]]);
            two_parts(input, pos, seq![92u8], seq![w[1]]);
            one_byte(input, pos, 92);
            one_byte(input, pos + 1, w[1]);
            assert(drv::unescaped(w[1]) == Some(c));
        } else {
            assert(s[0] as int <= 255);
            no_less_than_zero(c);
            one_byte(input, pos, (c as int) as u8);
            assert(((c as int) as u8) as int == c as int);
            assert(((c as int) as u8) as char == c);
        }
        chars_read_back(input, pos + w.len(), rest, acc.push(c));
    }
}

/// A string reads as what was written.
pub proof fn string_reads_back(input: Seq<u8>, pos: int, s: Seq<char>)
    requires
        of_bytes(s),
        text::has_at(input, pos, written_string(s)),
    ensures
        drv::read_string(input, pos) == Ok::<(Seq<char>, int), Seq<char>>(
            (s, pos + written_string(s).len()),
        ),
{
    let tail = written_chars(s) + seq![34u8];
    assert(written_string(s) =~= seq![34u8] + tail);
    two_parts(input, pos, seq![34u8], tail);
    one_byte(input, pos, 34);
    chars_read_back(input, pos + 1, s, Seq::empty());
    assert(Seq::<char>::empty() + s =~= s);
}

/// Whether an item reads as what was written, wherever it stands.
pub open spec fn item_reads_back<T: Item>(v: T::V, w: Seq<u8>) -> bool {
    forall|input: Seq<u8>, pos: int| #[trigger]
        text::has_at(input, pos, w) ==> T::read(input, pos) == Ok::<(T::V, int), Seq<char>>(
            (v, pos + w.len()),
        )
}

proof fn items_read_back<T: Item>(
    input: Seq<u8>,
    pos: int,
    vs: Seq<T::V>,
    write: spec_fn(T::V) -> Seq<u8>,
    acc: Seq<T::V>,
)
    requires
        vs.len() > 0,
        forall|i: int| 0 <= i < vs.len() ==> item_reads_back::<T>(#[trigger] vs[i], write(vs[i])),
        text::has_at(input, pos, with_commas(vs, write) + seq![93u8]),
    ensures
        drv::read_items::<T>(input, pos, acc) == Ok::<(Seq<T::V>, int), Seq<char>>(
            (acc + vs, pos + with_commas(vs, write).len() + 1),
        ),
    decreases vs.len(),
{
    let v = vs[0];
    let w = write(v);
    let rest = vs.skip(1);
    assert(item_reads_back::<T>(vs[0], write(vs[0])));
    if vs.len() == 1 {
        two_parts(input, pos, w, seq![93u8]);
        T::advances(input, pos);
        one_byte(input, pos + w.len(), 93);
        assert(acc + vs =~= acc.push(v));
    } else {
        let tail = with_commas(rest, write) + seq![93u8];
        assert(with_commas(vs, write) + seq![93u8] =~= w + (seq![44u8] + tail));
        two_parts(input, pos, w, seq![44u8] + tail);
        two_parts(input, pos + w.len(), seq![44u8], tail);
        T::advances(input, pos);
        one_byte(input, pos + w.len(), 44);
        assert forall|i: int| 0 <= i < rest.len() implies item_reads_back::<T>(
            #[trigger] rest[i],
            write(rest[i]),
        ) by {
            assert(rest[i] == vs[i + 1]);
        }
        items_read_back::<T>(input, pos + w.len() + 1, rest, write, acc.push(v));
        assert(acc.push(v) + rest =~= acc + vs);
    }
}

/// A list reads as what was written if its items do, and none of them starts with a bracket.
pub proof fn list_reads_back<T: Item>(
    input: Seq<u8>,
    pos: int,
    vs: Seq<T::V>,
    write: spec_fn(T::V) -> Seq<u8>,
)
    requires
        forall|i: int|
            0 <= i < vs.len() ==> item_reads_back::<T>(#[trigger] vs[i], write(vs[i])) && write(
                vs[i],
            ).len() > 0 && write(vs[i])[0] != 93,
        text::has_at(input, pos, written_list(vs, write)),
    ensures
        drv::read_list::<T>(input, pos) == Ok::<(Seq<T::V>, int), Seq<char>>(
            (vs, pos + written_list(vs, write).len()),
        ),
{
    let tail = with_commas(vs, write) + seq![93u8];
    assert(written_list(vs, write) =~= seq![91u8] + tail);
    two_parts(input, pos, seq![91u8], tail);
    one_byte(input, pos, 91);
    if vs.len() == 0 {
        assert(tail =~= seq![93u8]);
        one_byte(input, pos + 1, 93);
        assert(vs =~= Seq::empty());
    } else {
        let w = write(vs[0]);
        assert(tail[0] == w[0]) by {
            if vs.len() == 1 {
                assert(with_commas(vs, write) == w);
            }
        }
        assert(input.subrange(pos + 1, pos + 1 + tail.len())[0] == tail[0]);
        items_read_back::<T>(input, pos + 1, vs, write, Seq::empty());
        assert(Seq::<T::V>::empty() + vs =~= vs);
    }
}

proof fn string_item(s: Seq<char>)
    requires
        of_bytes(s),
    ensures
        item_reads_back::<String>(s, written_string(s)),
{
    assert forall|input: Seq<u8>, pos: int| #[trigger]
        text::has_at(input, pos, written_string(s)) implies <String as Item>::read(input, pos)
        == Ok::<(Seq<char>, int), Seq<char>>((s, pos + written_string(s).len())) by {
        string_reads_back(input, pos, s);
    }
}

/// A string and the byte behind it read as what was written.
proof fn string_then(input: Seq<u8>, pos: int, s: Seq<char>, b: u8, tail: Seq<u8>) -> (next: int)
    requires
        of_bytes(s),
        text::has_at(input, pos, written_string(s) + seq![b] + tail),
    ensures
        next == pos + written_string(s).len() + 1,
        drv::then_byte(drv::read_string(input, pos), input, b) == Ok::<
            (Seq<char>, int),
            Seq<char>,
        >((s, next)),
        text::has_at(input, next, tail),
{
    let w = written_string(s);
    two_parts(input, pos, w + seq![b], tail);
    two_parts(input, pos, w, seq![b]);
    string_reads_back(input, pos, s);
    one_byte(input, pos + w.len(), b);
    pos + w.len() + 1
}

proof fn pair_item(p: (Seq<char>, Seq<char>))
    requires
        of_bytes(p.0),
        of_bytes(p.1),
    ensures
        item_reads_back::<(String, String)>(p, pair_writer()(p)),
{
    let w = pair_writer()(p);
    let none = Seq::<u8>::empty();
    assert forall|input: Seq<u8>, pos: int| #[trigger] text::has_at(input, pos, w) implies <(
        String,
        String,
    ) as Item>::read(input, pos) == Ok::<((Seq<char>, Seq<char>), int), Seq<char>>(
        (p, pos + w.len()),
    ) by {
        let t1 = written_string(p.1) + seq![41u8] + none;
        let t0 = written_string(p.0) + seq![44u8] + t1;
        assert(w =~= seq![40u8] + t0);
        two_parts(input, pos, seq![40u8], t0);
        one_byte(input, pos, 40);
        let a = string_then(input, pos + 1, p.0, 44, t1);
        let b = string_then(input, a, p.1, 41, none);
    }
}

proof fn output_item(o: (Seq<char>, OutputView))
    requires
        output_of_bytes(o),
    ensures
        item_reads_back::<(String, Output)>(o, output_writer()(o)),
{
    let w = output_writer()(o);
    let none = Seq::<u8>::empty();
    assert forall|input: Seq<u8>, pos: int| #[trigger] text::has_at(input, pos, w) implies <(
        String,
        Output,
    ) as Item>::read(input, pos) == Ok::<((Seq<char>, OutputView), int), Seq<char>>(
        (o, pos + w.len()),
    ) by {
        let t3 = written_string(o.1.hash) + seq![41u8] + none;
        let t2 = written_string(o.1.hash_algo) + seq![44u8] + t3;
        let t1 = written_string(o.1.path) + seq![44u8] + t2;
        let t0 = written_string(o.0) + seq![44u8] + t1;
        assert(w =~= seq![40u8] + t0);
        two_parts(input, pos, seq![40u8], t0);
        one_byte(input, pos, 40);
        let a = string_then(input, pos + 1, o.0, 44, t1);
        let b = string_then(input, a, o.1.path, 44, t2);
        let c = string_then(input, b, o.1.hash_algo, 44, t3);
        let d = string_then(input, c, o.1.hash, 41, none);
    }
}

/// A list and the byte behind it read as what was written.
proof fn list_then<T: Item>(
    input: Seq<u8>,
    pos: int,
    vs: Seq<T::V>,
    write: spec_fn(T::V) -> Seq<u8>,
    b: u8,
    tail: Seq<u8>,
) -> (next: int)
    requires
        forall|i: int|
            0 <= i < vs.len() ==> item_reads_back::<T>(#[trigger] vs[i], write(vs[i])) && write(
                vs[i],
            ).len() > 0 && write(vs[i])[0] != 93,
        text::has_at(input, pos, written_list(vs, write) + seq![b] + tail),
    ensures
        next == pos + written_list(vs, write).len() + 1,
        drv::then_byte(drv::read_list::<T>(input, pos), input, b) == Ok::<
            (Seq<T::V>, int),
            Seq<char>,
        >((vs, next)),
        text::has_at(input, next, tail),
{
    let w = written_list(vs, write);
    two_parts(input, pos, w + seq![b], tail);
    two_parts(input, pos, w, seq![b]);
    list_reads_back::<T>(input, pos, vs, write);
    one_byte(input, pos + w.len(), b);
    pos + w.len() + 1
}

proof fn strings_then(input: Seq<u8>, pos: int, vs: Seq<Seq<char>>, b: u8, tail: Seq<u8>) -> (next:
    int)
    requires
        all_of_bytes(vs),
        text::has_at(input, pos, written_list(vs, string_writer()) + seq![b] + tail),
    ensures
        next == pos + written_list(vs, string_writer()).len() + 1,
        drv::then_byte(drv::read_list::<String>(input, pos), input, b) == Ok::<
            (Seq<Seq<char>>, int),
            Seq<char>,
        >((vs, next)),
        text::has_at(input, next, tail),
{
    assert forall|i: int| 0 <= i < vs.len() implies item_reads_back::<String>(
        #[trigger] vs[i],
        string_writer()(vs[i]),
    ) && string_writer()(vs[i]).len() > 0 && string_writer()(vs[i])[0] != 93 by {
        string_item(vs[i]);
    }
    list_then::<String>(input, pos, vs, string_writer(), b, tail)
}

proof fn input_item(p: (Seq<char>, Seq<Seq<char>>))
    requires
        of_bytes(p.0),
        all_of_bytes(p.1),
    ensures
        item_reads_back::<(String, Vec<String>)>(p, input_writer()(p)),
{
    let w = input_writer()(p);
    let none = Seq::<u8>::empty();
    assert forall|input: Seq<u8>, pos: int| #[trigger] text::has_at(input, pos, w) implies <(
        String,
        Vec<String>,
    ) as Item>::read(input, pos) == Ok::<((Seq<char>, Seq<Seq<char>>), int), Seq<char>>(
        (p, pos + w.len()),
    ) by {
        let t1 = written_list(p.1, string_writer()) + seq![41u8] + none;
        let t0 = written_string(p.0) + seq![44u8] + t1;
        assert(w =~= seq![40u8] + t0);
        two_parts(input, pos, seq![40u8], t0);
        one_byte(input, pos, 40);
        let a = string_then(input, pos + 1, p.0, 44, t1);
        let b = strings_then(input, a, p.1, 41, none);
    }
}

proof fn outputs_then(
    input: Seq<u8>,
    pos: int,
    os: Seq<(Seq<char>, OutputView)>,
    tail: Seq<u8>,
) -> (next: int)
    requires
        forall|i: int| 0 <= i < os.len() ==> output_of_bytes(#[trigger] os[i]),
        text::has_at(input, pos, written_list(os, output_writer()) + seq![44u8] + tail),
    ensures
        next == pos + written_list(os, output_writer()).len() + 1,
        drv::then_byte(drv::read_list::<(String, Output)>(input, pos), input, 44) == Ok::<
            (Seq<(Seq<char>, OutputView)>, int),
            Seq<char>,
        >((os, next)),
        text::has_at(input, next, tail),
{
    assert forall|i: int| 0 <= i < os.len() implies item_reads_back::<(String, Output)>(
        #[trigger] os[i],
        output_writer()(os[i]),
    ) && output_writer()(os[i]).len() > 0 && output_writer()(os[i])[0] != 93 by {
        output_item(os[i]);
    }
    list_then::<(String, Output)>(input, pos, os, output_writer(), 44, tail)
}

proof fn inputs_then(
    input: Seq<u8>,
    pos: int,
    ins: Seq<(Seq<char>, Seq<Seq<char>>)>,
    tail: Seq<u8>,
) -> (next: int)
    requires
        forall|i: int|
            0 <= i < ins.len() ==> of_bytes((#[trigger] ins[i]).0) && all_of_bytes(ins[i].1),
        text::has_at(input, pos, written_list(ins, input_writer()) + seq![44u8] + tail),
    ensures
        next == pos + written_list(ins, input_writer()).len() + 1,
        drv::then_byte(drv::read_list::<(String, Vec<String>)>(input, pos), input, 44) == Ok::<
            (Seq<(Seq<char>, Seq<Seq<char>>)>, int),
            Seq<char>,
        >((ins, next)),
        text::has_at(input, next, tail),
{
    assert forall|i: int| 0 <= i < ins.len() implies item_reads_back::<(String, Vec<String>)>(
        #[trigger] ins[i],
        input_writer()(ins[i]),
    ) && input_writer()(ins[i]).len() > 0 && input_writer()(ins[i])[0] != 93 by {
        input_item(ins[i]);
    }
    list_then::<(String, Vec<String>)>(input, pos, ins, input_writer(), 44, tail)
}

proof fn env_then(input: Seq<u8>, pos: int, env: Seq<(Seq<char>, Seq<char>)>, tail: Seq<u8>) -> (
    next: int)
    requires
        forall|i: int|
            0 <= i < env.len() ==> of_bytes((#[trigger] env[i]).0) && of_bytes(env[i].1),
        text::has_at(input, pos, written_list(env, pair_writer()) + seq![41u8] + tail),
    ensures
        next == pos + written_list(env, pair_writer()).len() + 1,
        drv::then_byte(drv::read_list::<(String, String)>(input, pos), input, 41) == Ok::<
            (Seq<(Seq<char>, Seq<char>)>, int),
            Seq<char>,
        >((env, next)),
{
    assert forall|i: int| 0 <= i < env.len() implies item_reads_back::<(String, String)>(
        #[trigger] env[i],
        pair_writer()(env[i]),
    ) && pair_writer()(env[i]).len() > 0 && pair_writer()(env[i])[0] != 93 by {
        pair_item(env[i]);
    }
    list_then::<(String, String)>(input, pos, env, pair_writer(), 41, tail)
}

/// The rest of a derivation that is read from `p2` on, and the position behind it.
spec fn read_rest(input: Seq<u8>, p2: int) -> Option<
    (Seq<Seq<char>>, Seq<char>, Seq<char>, Seq<Seq<char>>, Seq<(Seq<char>, Seq<char>)>, int),
> {
    match drv::then_byte(drv::read_list::<String>(input, p2), input, 44) {
        Err(_) => None,
        Ok((sources, p3)) => match drv::then_byte(drv::read_string(input, p3), input, 44) {
            Err(_) => None,
            Ok((platform, p4)) => match drv::then_byte(drv::read_string(input, p4), input, 44) {
                Err(_) => None,
                Ok((builder, p5)) => match drv::then_byte(
                    drv::read_list::<String>(input, p5),
                    input,
                    44,
                ) {
                    Err(_) => None,
                    Ok((args, p6)) => match drv::then_byte(
                        drv::read_list::<(String, String)>(input, p6),
                        input,
                        41,
                    ) {
                        Err(_) => None,
                        Ok((env, p7)) => Some((sources, platform, builder, args, env, p7)),
                    },
                },
            },
        },
    }
}

proof fn rest_reads_back(input: Seq<u8>, p2: int, d: Written)
    requires
        drv_of_bytes(d),
        text::has_at(input, p2, behind_inputs(d)),
    ensures
        read_rest(input, p2) == Some(
            (d.sources, d.platform, d.builder, d.args, d.env, p2 + behind_inputs(d).len()),
        ),
{
    let none = Seq::<u8>::empty();
    let t6 = written_list(d.env, pair_writer()) + seq![41u8] + none;
    let t5 = written_list(d.args, string_writer()) + seq![44u8] + t6;
    let t4 = written_string(d.builder) + seq![44u8] + t5;
    let t3 = written_string(d.platform) + seq![44u8] + t4;
    let p3 = strings_then(input, p2, d.sources, 44, t3);
    let p4 = string_then(input, p3, d.platform, 44, t4);
    let p5 = string_then(input, p4, d.builder, 44, t5);
    let p6 = strings_then(input, p5, d.args, 44, t6);
    let p7 = env_then(input, p6, d.env, none);
}

proof fn start_reads_back(input: Seq<u8>, d: Written) -> (r: (int, int))
    requires
        drv_of_bytes(d),
        text::has_at(input, 0, written_drv(d)),
    ensures
        ({
            let p0 = encode_utf8("Derive("@).len() as int;
            &&& text::has_at(input, 0, encode_utf8("Derive("@))
            &&& drv::then_byte(drv::read_list::<(String, Output)>(input, p0), input, 44) == Ok::<
                (Seq<(Seq<char>, OutputView)>, int),
                Seq<char>,
            >((d.outputs, r.0))
            &&& drv::then_byte(drv::read_list::<(String, Vec<String>)>(input, r.0), input, 44)
                == Ok::<(Seq<(Seq<char>, Seq<Seq<char>>)>, int), Seq<char>>((d.inputs, r.1))
            &&& text::has_at(input, r.1, behind_inputs(d))
            &&& r.1 + behind_inputs(d).len() == written_drv(d).len()
        }),
{
    let head = encode_utf8("Derive("@);
    let t2 = behind_inputs(d);
    let t1 = written_list(d.inputs, input_writer()) + seq![44u8] + t2;
    let t0 = written_list(d.outputs, output_writer()) + seq![44u8] + t1;
    two_parts(input, 0, head, t0);
    let p1 = outputs_then(input, head.len() as int, d.outputs, t1);
    let p2 = inputs_then(input, p1, d.inputs, t2);
    (p1, p2)
}

/// What a written derivation holds.
pub open spec fn held(d: Written) -> DrvView {
    DrvView {
        outputs: strmap::collected(d.outputs),
        input_derivations: strmap::collected(d.inputs),
        input_sources: d.sources,
        platform: d.platform,
        builder: d.builder,
        args: d.args,
        env: strmap::collected(d.env),
    }
}

proof fn put_together(input: Seq<u8>, d: Written, p1: int, p2: int, end: int)
    requires
        text::has_at(input, 0, encode_utf8("Derive("@)),
        drv::then_byte(
            drv::read_list::<(String, Output)>(input, encode_utf8("Derive("@).len() as int),
            input,
            44,
        ) == Ok::<(Seq<(Seq<char>, OutputView)>, int), Seq<char>>((d.outputs, p1)),
        drv::then_byte(drv::read_list::<(String, Vec<String>)>(input, p1), input, 44) == Ok::<
            (Seq<(Seq<char>, Seq<Seq<char>>)>, int),
            Seq<char>,
        >((d.inputs, p2)),
        read_rest(input, p2) == Some((d.sources, d.platform, d.builder, d.args, d.env, end)),
    ensures
        drv::read_whole(input) == Ok::<(DrvView, int), Seq<char>>((held(d), end)),
{
}

/// The file that Nix writes for a derivation reads as that derivation, to its end. Its strings are
/// of bytes.
pub proof fn derivation_reads_back(d: Written)
    requires
        drv_of_bytes(d),
    ensures
        drv::read_drv(written_drv(d)) == Ok::<DrvView, Seq<char>>(held(d)),
        drv::read_whole(written_drv(d)) == Ok::<(DrvView, int), Seq<char>>(
            (held(d), written_drv(d).len() as int),
        ),
{
    let input = written_drv(d);
    assert(input.subrange(0, input.len() as int) =~= input);
    let (p1, p2) = start_reads_back(input, d);
    rest_reads_back(input, p2, d);
    put_together(input, d, p1, p2, input.len() as int);
}

/// Of the file that Nix writes for a derivation no proper prefix is accepted, and bytes behind it do
/// not count.
pub proof fn derivation_is_read_in_full(d: Written, n: int, behind: Seq<u8>)
    requires
        drv_of_bytes(d),
        0 <= n < written_drv(d).len(),
    ensures
        drv::read_drv(written_drv(d).take(n)) is Err,
        drv::read_drv(written_drv(d) + behind) == Ok::<DrvView, Seq<char>>(held(d)),
{
    let input = written_drv(d);
    derivation_reads_back(d);
    drv::truncated_is_refused(input, n);
    drv::trailing_bytes_do_not_count(input, input + behind);
}

} // verus!
