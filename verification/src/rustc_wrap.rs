//! The wrapper that stands before `rustc` for pipelined builds.
//!
//! It parts the arguments of the library half from those of the linking half, swaps the early
//! metadata of dependencies for their libraries where something is linked, and reads the JSON
//! that `rustc` writes to its standard error.
use crate::path;
use crate::text;
use vstd::prelude::*;
use vstd::utf8::*;

verus! {

/// Arguments by kind. The crate types are split out so that the library half and the linking half
/// can be driven separately.
pub struct Classified {
    pub args: Vec<String>,
    pub lib_types: Vec<String>,
    pub link_types: Vec<String>,
    pub out_is_target_lib: bool,
    /// The directories that are searched for dependencies.
    pub dep_dirs: Vec<String>,
}

/// What a [`Classified`] holds.
#[verifier::ext_equal]
pub struct ClassView {
    pub args: Seq<Seq<char>>,
    pub lib_types: Seq<Seq<char>>,
    pub link_types: Seq<Seq<char>>,
    pub out_is_target_lib: bool,
    pub dep_dirs: Seq<Seq<char>>,
}

impl View for Classified {
    type V = ClassView;

    open spec fn view(&self) -> ClassView {
        ClassView {
            args: self.args.deep_view(),
            lib_types: self.lib_types.deep_view(),
            link_types: self.link_types.deep_view(),
            out_is_target_lib: self.out_is_target_lib,
            dep_dirs: self.dep_dirs.deep_view(),
        }
    }
}

/// A crate type of which metadata alone can be used.
pub open spec fn lib_type(t: Seq<char>) -> bool {
    t == "lib"@ || t == "rlib"@
}

/// With one more argument.
pub open spec fn with_arg(c: ClassView, a: Seq<char>) -> ClassView {
    ClassView { args: c.args.push(a), ..c }
}

/// With one more crate type, which may take several arguments.
pub open spec fn with_type(c: ClassView, t: Seq<char>, words: Seq<Seq<char>>) -> ClassView {
    if lib_type(t) {
        ClassView { lib_types: c.lib_types + words, ..c }
    } else {
        ClassView { link_types: c.link_types + words, ..c }
    }
}

/// With one more directory to search, if the argument of `-L` names one for dependencies.
pub open spec fn with_dir(c: ClassView, d: Option<Seq<char>>) -> ClassView {
    match d {
        Some(p) => ClassView { dep_dirs: c.dep_dirs.push(p), ..c },
        None => c,
    }
}

/// The arguments `a`, sorted behind those in `c`. `--color` is dropped with its value, since it does
/// not go with JSON messages.
pub open spec fn sorted_out(c: ClassView, a: Seq<Seq<char>>) -> ClassView
    decreases a.len(),
{
    if a.len() == 0 {
        c
    } else {
        let s = a[0];
        let r1 = a.skip(1);
        let r2 = a.skip(2);
        if s == "--color"@ {
            if a.len() == 1 {
                c
            } else {
                sorted_out(c, r2)
            }
        } else if "--color="@.is_prefix_of(s) {
            sorted_out(c, r1)
        } else if s == "-L"@ {
            if a.len() == 1 {
                with_arg(c, s)
            } else {
                sorted_out(
                    with_arg(
                        with_dir(with_arg(c, s), text::without_prefix(a[1], "dependency="@)),
                        a[1],
                    ),
                    r2,
                )
            }
        } else if text::without_prefix(s, "-Ldependency="@) is Some {
            sorted_out(
                with_arg(with_dir(c, text::without_prefix(s, "-Ldependency="@)), s),
                r1,
            )
        } else if s == "--out-dir"@ {
            if a.len() == 1 {
                with_arg(c, s)
            } else {
                let d = with_arg(with_arg(c, s), a[1]);
                sorted_out(
                    ClassView {
                        out_is_target_lib: d.out_is_target_lib || a[1] == "target/lib"@,
                        ..d
                    },
                    r2,
                )
            }
        } else if s == "--crate-type"@ {
            if a.len() == 1 {
                c
            } else {
                sorted_out(with_type(c, a[1], seq![s, a[1]]), r2)
            }
        } else {
            match text::without_prefix(s, "--crate-type="@) {
                Some(t) => sorted_out(with_type(c, t, seq![s]), r1),
                None => sorted_out(with_arg(c, s), r1),
            }
        }
    }
}

/// No arguments.
pub open spec fn no_args() -> ClassView {
    ClassView {
        args: Seq::empty(),
        lib_types: Seq::empty(),
        link_types: Seq::empty(),
        out_is_target_lib: false,
        dep_dirs: Seq::empty(),
    }
}

fn is_lib_type(t: &str) -> (r: bool)
    ensures
        r == lib_type(t@),
{
    text::str_eq(t, "lib") || text::str_eq(t, "rlib")
}

fn add_to(v: &mut Vec<String>, s: &str)
    ensures
        final(v).deep_view() == old(v).deep_view().push(s@),
{
    let ghost before = v.deep_view();
    v.push(s.to_owned());
    assert(v.deep_view() =~= before.push(s@));
}

impl Classified {
    fn new() -> (r: Self)
        ensures
            r@ == no_args(),
    {
        let r = Classified {
            args: Vec::new(),
            lib_types: Vec::new(),
            link_types: Vec::new(),
            out_is_target_lib: false,
            dep_dirs: Vec::new(),
        };
        assert(r@ =~= no_args());
        r
    }

    fn add_arg(&mut self, a: &str)
        ensures
            final(self)@ == with_arg(old(self)@, a@),
    {
        add_to(&mut self.args, a);
        assert(self@ =~= with_arg(old(self)@, a@));
    }

    fn add_dir(&mut self, d: Option<String>)
        ensures
            final(self)@ == with_dir(
                old(self)@,
                match d {
                    Some(p) => Some(p@),
                    None => None,
                },
            ),
    {
        match d {
            Some(p) => {
                add_to(&mut self.dep_dirs, p.as_str());
                assert(self@ =~= with_dir(old(self)@, Some(p@)));
            },
            None => {},
        }
    }

    fn add_type(&mut self, t: &str, first: &str, second: Option<&str>)
        ensures
            final(self)@ == with_type(
                old(self)@,
                t@,
                match second {
                    Some(s) => seq![first@, s@],
                    None => seq![first@],
                },
            ),
    {
        if is_lib_type(t) {
            add_to(&mut self.lib_types, first);
            if let Some(s) = second {
                add_to(&mut self.lib_types, s);
            }
        } else {
            add_to(&mut self.link_types, first);
            if let Some(s) = second {
                add_to(&mut self.link_types, s);
            }
        }
        assert(self@ =~= with_type(
            old(self)@,
            t@,
            match second {
                Some(s) => seq![first@, s@],
                None => seq![first@],
            },
        ));
    }
}

/// Sorts out the arguments of a compiler call.
pub fn classify(argv: &Vec<String>) -> (r: Classified)
    ensures
        r@ == sorted_out(no_args(), argv.deep_view()),
{
    let ghost all = argv.deep_view();
    let n: usize = argv.len();
    let mut c = Classified::new();
    let mut i: usize = 0;
    assert(all.skip(0) =~= all);
    while i < n
        invariant
            n == argv@.len(),
            all == argv.deep_view(),
            i <= n,
            sorted_out(c@, all.skip(i as int)) == sorted_out(no_args(), all),
        decreases n - i,
    {
        let ghost a = all.skip(i as int);
        let ghost c0 = c@;
        let s = argv[i].as_str();
        let last = i + 1 == n;
        proof {
            assert(a[0] == s@);
            assert(a.skip(1) =~= all.skip(i + 1));
            if !last {
                assert(a[1] == argv@[i + 1]@);
                assert(a.skip(2) =~= all.skip(i + 2));
            }
        }
        if text::str_eq(s, "--color") {
            if last {
                assert(all.skip(i + 1) =~= Seq::empty());
                i = i + 1;
            } else {
                i = i + 2;
            }
        } else if text::starts_with(s, "--color=") {
            i = i + 1;
        } else if text::str_eq(s, "-L") {
            c.add_arg(s);
            if last {
                assert(all.skip(i + 1) =~= Seq::empty());
                i = i + 1;
            } else {
                let v = argv[i + 1].as_str();
                c.add_dir(text::strip_prefix(v, "dependency="));
                c.add_arg(v);
                i = i + 2;
            }
        } else if text::str_eq(s, "--out-dir") {
            proof {
                reveal_strlit("--out-dir");
                reveal_strlit("-Ldependency=");
                assert(s@[1] == '-');
            }
            c.add_arg(s);
            if last {
                assert(all.skip(i + 1) =~= Seq::empty());
                i = i + 1;
            } else {
                let v = argv[i + 1].as_str();
                c.add_arg(v);
                if text::str_eq(v, "target/lib") {
                    c.out_is_target_lib = true;
                }
                proof {
                    let d = with_arg(with_arg(c0, s@), v@);
                    assert(c@ =~= ClassView {
                        out_is_target_lib: d.out_is_target_lib || v@ == "target/lib"@,
                        ..d
                    });
                }
                i = i + 2;
            }
        } else if text::str_eq(s, "--crate-type") {
            proof {
                reveal_strlit("--crate-type");
                reveal_strlit("-Ldependency=");
                assert(s@[1] == '-');
            }
            if last {
                assert(all.skip(i + 1) =~= Seq::empty());
                i = i + 1;
            } else {
                let v = argv[i + 1].as_str();
                c.add_type(v, s, Some(v));
                i = i + 2;
            }
        } else {
            match text::strip_prefix(s, "-Ldependency=") {
                Some(d) => {
                    c.add_dir(Some(d));
                    c.add_arg(s);
                },
                None => match text::strip_prefix(s, "--crate-type=") {
                    Some(t) => {
                        c.add_type(t.as_str(), s, None);
                    },
                    None => {
                        c.add_arg(s);
                    },
                },
            }
            i = i + 1;
        }
    }
    assert(all.skip(n as int) =~= Seq::empty());
    c
}

/// Where builds in progress lie, as part of a path.
pub const TMP: &'static str = "/nix-inc/tmp/";

/// Where builds in progress lie in a cache named after the program, as part of a path.
pub const BOB_TMP: &'static str = "/bob/tmp/";

/// Whether a path is the place of a build, `…/tmp/<key>`: its last component stands directly behind
/// a mark.
pub open spec fn in_progress(p: Seq<char>) -> bool {
    let dir = p.take(path::base_start(p));
    TMP@.is_suffix_of(dir) || BOB_TMP@.is_suffix_of(dir)
}

/// The last position up to `e` where the place of a build ends and `/rmeta/` follows.
pub open spec fn place_end(p: Seq<char>, e: int) -> Option<int>
    decreases e + 1,
{
    if e < 0 {
        None
    } else if text::has_at(p, e, "/rmeta/"@) && in_progress(p.take(e)) {
        Some(e)
    } else {
        place_end(p, e - 1)
    }
}

/// The place of the build whose early metadata an argument `name=<tmp>/<key>/rmeta/<file>.rmeta`
/// names. The path is taken apart from its end, so what stands before `<tmp>` does not count.
pub open spec fn rmeta_place(arg: Seq<char>) -> Option<Seq<char>> {
    match text::split_at_first(arg, '=') {
        None => None,
        Some((_, p)) => if !".rmeta"@.is_suffix_of(p) {
            None
        } else {
            match place_end(p, p.len() as int) {
                None => None,
                Some(e) => Some(p.take(e)),
            }
        },
    }
}

fn is_in_progress(cs: &[char], e: usize) -> (r: bool)
    requires
        e <= cs@.len(),
    ensures
        r == in_progress(cs@.take(e as int)),
{
    let ghost t = cs@.take(e as int);
    let mut k: usize = e;
    assert(t.take(e as int) =~= t);
    while k > 0 && cs[k - 1] != '/'
        invariant
            k <= e <= cs@.len(),
            t == cs@.take(e as int),
            path::base_start(t) == path::base_start(t.take(k as int)),
        decreases k,
    {
        assert(t.take(k as int).drop_last() =~= t.take(k - 1));
        k = k - 1;
    }
    let dir = text::string_of(text::part(cs, 0, k).as_slice());
    assert(dir@ =~= t.take(k as int));
    text::ends_with(dir.as_str(), TMP) || text::ends_with(dir.as_str(), BOB_TMP)
}

proof fn place_end_bounds(p: Seq<char>, e: int)
    requires
        e <= p.len(),
    ensures
        place_end(p, e) matches Some(k) ==> 0 <= k <= e && text::has_at(p, k, "/rmeta/"@)
            && in_progress(p.take(k)),
    decreases e + 1,
{
    if e >= 0 && !(text::has_at(p, e, "/rmeta/"@) && in_progress(p.take(e))) {
        place_end_bounds(p, e - 1);
    }
}

/// Behind the place of a build there is `/rmeta/` and a name with its ending.
proof fn file_follows(p: Seq<char>)
    requires
        ".rmeta"@.is_suffix_of(p),
        place_end(p, p.len() as int) is Some,
    ensures
        0 <= place_end(p, p.len() as int)->Some_0,
        place_end(p, p.len() as int)->Some_0 + 13 <= p.len(),
{
    reveal_strlit("/rmeta/");
    reveal_strlit(".rmeta");
    place_end_bounds(p, p.len() as int);
    let e = place_end(p, p.len() as int)->Some_0;
    let slash = "/rmeta/"@;
    assert(p.subrange(e, e + 7) == slash);
    assert(p.subrange(e, e + 7)[6] == '/');
    assert(p[e + 6] == '/');
    let end = p.subrange(p.len() - 6, p.len() as int);
    assert(end == ".rmeta"@);
    assert(forall|i: int| 0 <= i < 6 ==> end[i] == p[p.len() - 6 + i]);
    assert(forall|i: int| 0 <= i < 6 ==> #[trigger] end[i] != '/');
    if e + 7 > p.len() - 6 {
        assert(end[e + 6 - (p.len() - 6)] == '/');
    }
}

/// Gives the name of an argument, its path, the place of the build that it names, and the path of
/// what is built there without its ending.
fn parts_of(arg: &str) -> (r: Option<(String, String, String, String)>)
    ensures
        match r {
            Some(c) => {
                &&& text::split_at_first(arg@, '=') == Some((c.0@, c.1@))
                &&& rmeta_place(arg@) == Some(c.2@)
                &&& c.3@ == committed_base(c.1@, c.2@)
            },
            None => rmeta_place(arg@) is None,
        },
{
    let (name, p) = match text::split_once(arg, '=') {
        None => {
            return None;
        },
        Some(c) => c,
    };
    if !text::ends_with(p.as_str(), ".rmeta") {
        return None;
    }
    let cs = text::chars_of(p.as_str());
    let n: usize = cs.len();
    let w = text::chars_of("/rmeta/");
    let mut e: usize = n;
    loop
        invariant
            cs@ == p@,
            n == cs@.len(),
            w@ == "/rmeta/"@,
            e <= n,
            ".rmeta"@.is_suffix_of(p@),
            text::split_at_first(arg@, '=') == Some((name@, p@)),
            place_end(p@, n as int) == place_end(p@, e as int),
        decreases e,
    {
        if text::chars_at(cs.as_slice(), e, w.as_slice()) && is_in_progress(cs.as_slice(), e) {
            proof {
                file_follows(p@);
                reveal_strlit("/rmeta/");
                reveal_strlit(".rmeta");
            }
            let t = text::part(cs.as_slice(), 0, e);
            let file = text::part(cs.as_slice(), e + 7, n - 6);
            let place = text::string_of(t.as_slice());
            let stem = text::string_of(file.as_slice());
            let mut base = place.clone();
            base.append("/lib/lib/");
            base.append(stem.as_str());
            proof {
                assert(place@ =~= p@.take(e as int));
                let f = p@.skip(e + 7);
                assert(stem@ =~= f.take(f.len() - 6));
                assert(base@ =~= committed_base(p@, place@));
            }
            return Some((name, p, place, base));
        }
        if e == 0 {
            assert(place_end(p@, -1) is None);
            return None;
        }
        e = e - 1;
    }
}

/// Gives the place of the build whose early metadata an argument names.
pub fn rmeta_arg_tmp(arg: &str) -> (r: Option<String>)
    ensures
        match r {
            Some(s) => rmeta_place(arg@) == Some(s@),
            None => rmeta_place(arg@) is None,
        },
{
    match parts_of(arg) {
        Some((_, _, place, _)) => Some(place),
        None => None,
    }
}

/// The path without its ending where the build at `t` puts what it built, for the path `p` of its
/// early metadata: `<tmp>/<key>/lib/lib/<file>`.
pub open spec fn committed_base(p: Seq<char>, t: Seq<char>) -> Seq<char> {
    let f = p.skip((t.len() + "/rmeta/"@.len()) as int);
    t + "/lib/lib/"@ + f.take(f.len() - ".rmeta"@.len())
}

/// An argument for linking: one that names early metadata names the library instead,
/// `name=<tmp>/<key>/lib/lib/<file>.rlib`.
pub open spec fn linked_arg(arg: Seq<char>) -> Seq<char> {
    match (text::split_at_first(arg, '='), rmeta_place(arg)) {
        (Some((name, p)), Some(t)) => name + "="@ + committed_base(p, t) + ".rlib"@,
        _ => arg,
    }
}

proof fn first_equals(name: Seq<char>, rest: Seq<char>, i: int)
    requires
        !name.contains('='),
        0 <= i <= name.len(),
    ensures
        text::char_from(name + "="@ + rest, '=', i) == Some(name.len() as int),
    decreases name.len() - i,
{
    reveal_strlit("=");
    let s = name + "="@ + rest;
    if i < name.len() {
        assert(name.contains(name[i]));
        assert(s[i] == name[i]);
        first_equals(name, rest, i + 1);
    } else {
        assert(s[i] == '=');
    }
}

proof fn last_place(t: Seq<char>, f: Seq<char>, e: int)
    requires
        in_progress(t),
        !f.contains('/'),
        t.len() <= e <= (t + "/rmeta/"@ + f + ".rmeta"@).len(),
    ensures
        place_end(t + "/rmeta/"@ + f + ".rmeta"@, e) == Some(t.len() as int),
    decreases e,
{
    reveal_strlit("/rmeta/");
    reveal_strlit(".rmeta");
    let p = t + "/rmeta/"@ + f + ".rmeta"@;
    if e > t.len() {
        if text::has_at(p, e, "/rmeta/"@) {
            assert(p.subrange(e, e + 7)[6] == '/');
            let k = e + 6;
            assert(p[k] == '/');
            let m = (t.len() + 7) as int;
            if k < m + f.len() {
                assert(p[k] == f[k - m]);
                assert(f.contains(f[k - m]));
            } else {
                assert(p[k] == ".rmeta"@[k - m - f.len()]);
            }
        }
        last_place(t, f, e - 1);
    } else {
        assert(p.subrange(e, e + 7) =~= "/rmeta/"@);
        assert(p.take(e) =~= t);
    }
}

/// Early metadata of a build gives way to the library of the same build and the same name; the
/// place of the build, wherever it lies, stays.
pub proof fn linking_keeps_the_place(name: Seq<char>, t: Seq<char>, f: Seq<char>)
    requires
        !name.contains('='),
        in_progress(t),
        !f.contains('/'),
    ensures
        rmeta_place(name + "="@ + (t + "/rmeta/"@ + f + ".rmeta"@)) == Some(t),
        linked_arg(name + "="@ + (t + "/rmeta/"@ + f + ".rmeta"@)) == name + "="@ + (t
            + "/lib/lib/"@ + f) + ".rlib"@,
{
    let p = t + "/rmeta/"@ + f + ".rmeta"@;
    let arg = name + "="@ + p;
    reveal_strlit("=");
    reveal_strlit("/rmeta/");
    reveal_strlit(".rmeta");
    first_equals(name, p, 0);
    assert(arg.take(name.len() as int) =~= name);
    assert(arg.skip(name.len() as int + 1) =~= p);
    assert(text::split_at_first(arg, '=') == Some((name, p)));
    assert(p.subrange(p.len() - 6, p.len() as int) =~= ".rmeta"@);
    last_place(t, f, p.len() as int);
    assert(p.take(t.len() as int) =~= t);
    let g = p.skip((t.len() + 7) as int);
    assert(g.take(g.len() - 6) =~= f);
}

/// Gives an argument for linking.
pub fn link_arg(arg: &str) -> (r: String)
    ensures
        r@ == linked_arg(arg@),
{
    match parts_of(arg) {
        None => arg.to_owned(),
        Some((name, _, _, base)) => {
            let mut s = name;
            s.append("=");
            s.append(base.as_str());
            s.append(".rlib");
            s
        },
    }
}

/// Swaps each argument that names early metadata for the library. Each dependency named must be
/// done: [`done_marks`] gives the marks to wait for.
pub fn swap_rmeta_args_to_rlib(args: &mut Vec<String>)
    ensures
        final(args).deep_view() == old(args).deep_view().map_values(
            |a: Seq<char>| linked_arg(a),
        ),
{
    let ghost a0 = args.deep_view();
    let n: usize = args.len();
    for i in 0..n
        invariant
            n == args@.len(),
            a0 == old(args).deep_view(),
            n == a0.len(),
            forall|k: int| 0 <= k < i ==> (#[trigger] args@[k])@ == linked_arg(a0[k]),
            forall|k: int| i <= k < n ==> (#[trigger] args@[k])@ == a0[k],
    {
        let s = link_arg(args[i].as_str());
        args.set(i, s);
    }
    assert(args.deep_view() =~= a0.map_values(|a: Seq<char>| linked_arg(a)));
}

/// The marks of completion of the dependencies whose early metadata the arguments name.
pub open spec fn marks(args: Seq<Seq<char>>) -> Seq<Seq<char>>
    decreases args.len(),
{
    if args.len() == 0 {
        Seq::empty()
    } else {
        match rmeta_place(args.last()) {
            Some(t) => marks(args.drop_last()).push(t + "/done"@),
            None => marks(args.drop_last()),
        }
    }
}

/// Gives the marks of completion to wait for.
pub fn done_marks(args: &Vec<String>) -> (r: Vec<String>)
    ensures
        r.deep_view() == marks(args.deep_view()),
{
    let ghost a = args.deep_view();
    let mut v: Vec<String> = Vec::new();
    assert(v.deep_view() =~= marks(a.take(0)));
    for i in 0..args.len()
        invariant
            a == args.deep_view(),
            v.deep_view() == marks(a.take(i as int)),
    {
        assert(a.take(i + 1).drop_last() =~= a.take(i as int));
        match rmeta_arg_tmp(args[i].as_str()) {
            Some(t) => {
                let mut m = t;
                m.append("/done");
                add_to(&mut v, m.as_str());
            },
            None => {},
        }
    }
    assert(a.take(a.len() as int) =~= a);
    v
}

/// The path without any of its endings where the build at `t` puts what it built, for the path `p`
/// of its early metadata.
pub open spec fn library_base(p: Seq<char>, t: Seq<char>) -> Seq<char> {
    text::without_suffixes(committed_base(p, t), ".rmeta"@)
}

/// An argument for the library half: early metadata that is not there gives way to the shared or
/// static library, as far as those are there. `there` tells which paths exist.
pub open spec fn resolved_arg(arg: Seq<char>, there: Set<Seq<char>>) -> Seq<char> {
    match (text::split_at_first(arg, '='), rmeta_place(arg)) {
        (Some((name, p)), Some(t)) => {
            let base = library_base(p, t);
            if there.contains(p) {
                arg
            } else if there.contains(base + ".so"@) {
                name + "="@ + base + ".so"@
            } else if there.contains(base + ".rlib"@) {
                name + "="@ + base + ".rlib"@
            } else {
                arg
            }
        },
        _ => arg,
    }
}

/// The paths whose presence decides about an argument: the early metadata, the shared library and
/// the static one.
pub fn candidates(arg: &str) -> (r: Option<(String, String, String)>)
    ensures
        match r {
            Some(c) => {
                &&& rmeta_place(arg@) matches Some(t) && text::split_at_first(arg@, '=') matches Some(
                    (_, p),
                ) && c.0@ == p && c.1@ == library_base(p, t) + ".so"@ && c.2@ == library_base(p, t)
                    + ".rlib"@
            },
            None => rmeta_place(arg@) is None,
        },
{
    match parts_of(arg) {
        None => None,
        Some((_, p, _, named)) => {
            let base = text::trim_end_matches(named.as_str(), ".rmeta");
            let mut so = base.clone();
            so.append(".so");
            let mut rlib = base;
            rlib.append(".rlib");
            Some((p, so, rlib))
        },
    }
}

/// Gives an argument for the library half.
pub fn resolve_arg(arg: &str, there: &crate::strmap::StrSet) -> (r: String)
    ensures
        r@ == resolved_arg(arg@, there@),
{
    match candidates(arg) {
        None => arg.to_owned(),
        Some((p, so, rlib)) => {
            if there.contains(p.as_str()) {
                return arg.to_owned();
            }
            match text::split_once(arg, '=') {
                None => arg.to_owned(),
                Some((name, _)) => {
                    let mut s = name;
                    s.append("=");
                    if there.contains(so.as_str()) {
                        s.append(so.as_str());
                        assert(s@ =~= resolved_arg(arg@, there@));
                        s
                    } else if there.contains(rlib.as_str()) {
                        s.append(rlib.as_str());
                        assert(s@ =~= resolved_arg(arg@, there@));
                        s
                    } else {
                        arg.to_owned()
                    }
                },
            }
        },
    }
}

/// Resolves all arguments for the library half.
pub fn resolve_missing_rmeta_args(args: &mut Vec<String>, there: &crate::strmap::StrSet)
    ensures
        final(args).deep_view() == old(args).deep_view().map_values(
            |a: Seq<char>| resolved_arg(a, there@),
        ),
{
    let ghost a0 = args.deep_view();
    let n: usize = args.len();
    for i in 0..n
        invariant
            n == args@.len(),
            a0 == old(args).deep_view(),
            n == a0.len(),
            forall|k: int| 0 <= k < i ==> (#[trigger] args@[k])@ == resolved_arg(a0[k], there@),
            forall|k: int| i <= k < n ==> (#[trigger] args@[k])@ == a0[k],
    {
        let s = resolve_arg(args[i].as_str(), there);
        args.set(i, s);
    }
    assert(args.deep_view() =~= a0.map_values(|a: Seq<char>| resolved_arg(a, there@)));
}

/// The mark of completion to wait for before the libraries of a dependency are linked, if it is
/// still being built: its path is then `…/tmp/<key>/lib`.
pub fn closure_mark(dep: &str) -> (r: Option<String>)
    ensures
        match r {
            Some(m) => text::without_suffix(dep@, "/lib"@) matches Some(p) && in_progress(p) && m@
                == p + "/done"@,
            None => text::without_suffix(dep@, "/lib"@) matches Some(p) ==> !in_progress(p),
        },
{
    match text::strip_suffix(dep, "/lib") {
        None => None,
        Some(p) => {
            let cs = text::chars_of(p.as_str());
            assert(cs@.take(cs@.len() as int) =~= p@);
            if is_in_progress(cs.as_slice(), cs.len()) {
                let mut m = p;
                m.append("/done");
                Some(m)
            } else {
                None
            }
        },
    }
}

/// Whether an entry of a dependency's library directory is linked into the directories that are
/// searched: a static or a shared library.
pub fn relinked(name: &str) -> (r: bool)
    ensures
        r == (".rlib"@.is_suffix_of(name@) || ".so"@.is_suffix_of(name@)),
{
    text::ends_with(name, ".rlib") || text::ends_with(name, ".so")
}

/// Whether `needle` stands in `haystack`.
pub fn memchr_contains(haystack: &[u8], needle: &[u8]) -> (r: bool)
    requires
        needle@.len() > 0,
    ensures
        r == text::occurs(haystack@, needle@),
{
    proof {
        text::occurs_is_found(haystack@, needle@);
    }
    text::find_bytes(haystack, needle).is_some()
}

/// The value of a hexadecimal digit.
pub open spec fn hex_value(b: u8) -> Option<u32> {
    if 48 <= b <= 57 {
        Some((b - 48) as u32)
    } else if 97 <= b <= 102 {
        Some((b - 87) as u32)
    } else if 65 <= b <= 70 {
        Some((b - 55) as u32)
    } else {
        None
    }
}

/// The number that some hexadecimal digits give, read behind the digits for `acc`.
pub open spec fn hex_number(s: Seq<u8>, acc: u32) -> Option<u32>
    decreases s.len(),
{
    if s.len() == 0 {
        Some(acc)
    } else {
        match hex_value(s[0]) {
            Some(d) => hex_number(s.skip(1), (acc * 16 + d) as u32),
            None => None,
        }
    }
}

/// The number after `\u`: four digits, or a plus sign and three.
pub open spec fn escape_number(s: Seq<u8>) -> Option<u32> {
    if s.len() > 0 && s[0] == 43 {
        hex_number(s.skip(1), 0)
    } else {
        hex_number(s, 0)
    }
}

/// The bytes of the character with a number; a number that is none gives the replacement
/// character.
pub open spec fn escape_bytes(n: u32) -> Seq<u8> {
    if is_scalar(n) {
        encode_scalar(n)
    } else {
        encode_scalar(0xFFFD)
    }
}

/// The byte that a backslash and a letter stand for. What needs no escape stands for itself.
pub open spec fn simple_escape(b: u8) -> u8 {
    if b == 110 {
        10
    } else if b == 116 {
        9
    } else if b == 114 {
        13
    } else {
        b
    }
}

/// The bytes of a JSON string from position `i` on up to its closing quote, behind `acc`. There are
/// none if the quote is missing or an escape is broken.
pub open spec fn decoded(line: Seq<u8>, i: int, acc: Seq<u8>) -> Option<Seq<u8>>
    decreases line.len() - i,
{
    if i < 0 || i >= line.len() {
        None
    } else if line[i] == 34 {
        Some(acc)
    } else if line[i] != 92 {
        decoded(line, i + 1, acc.push(line[i]))
    } else if i + 1 >= line.len() {
        None
    } else if line[i + 1] != 117 {
        decoded(line, i + 2, acc.push(simple_escape(line[i + 1])))
    } else if i + 6 > line.len() {
        None
    } else {
        match escape_number(line.subrange(i + 2, i + 6)) {
            Some(n) => decoded(line, i + 6, acc + escape_bytes(n)),
            None => None,
        }
    }
}

/// The decoded value of the first string field with a name in a line of JSON.
pub open spec fn str_field(line: Seq<u8>, field: Seq<char>) -> Option<Seq<u8>> {
    let key = encode_utf8("\""@ + field + "\":\""@);
    match text::find_from(line, key, 0) {
        None => None,
        Some(i) => decoded(line, i + key.len(), Seq::empty()),
    }
}

fn hex_digit(b: u8) -> (r: Option<u32>)
    ensures
        r == hex_value(b),
        r matches Some(d) ==> d < 16,
{
    if 48 <= b && b <= 57 {
        Some((b - 48) as u32)
    } else if 97 <= b && b <= 102 {
        Some((b - 87) as u32)
    } else if 65 <= b && b <= 70 {
        Some((b - 55) as u32)
    } else {
        None
    }
}

fn read_hex(line: &[u8], from: usize, to: usize) -> (r: Option<u32>)
    requires
        from <= to <= line@.len(),
        to - from <= 4,
    ensures
        r == hex_number(line@.subrange(from as int, to as int), 0),
        r matches Some(n) ==> n < 0x10000,
{
    let ghost s = line@.subrange(from as int, to as int);
    let mut acc: u32 = 0;
    let mut i: usize = from;
    assert(s.skip(0) =~= s);
    while i < to
        invariant
            from <= i <= to <= line@.len(),
            to - from <= 4,
            s == line@.subrange(from as int, to as int),
            hex_number(s.skip(i - from), acc) == hex_number(s, 0),
            i - from == 0 ==> acc == 0,
            i - from == 1 ==> acc < 16,
            i - from == 2 ==> acc < 256,
            i - from == 3 ==> acc < 4096,
            i - from == 4 ==> acc < 65536,
        decreases to - i,
    {
        assert(s.skip(i - from)[0] == line@[i as int]);
        assert(s.skip(i - from).skip(1) =~= s.skip(i + 1 - from));
        match hex_digit(line[i]) {
            Some(d) => {
                acc = acc * 16 + d;
            },
            None => {
                return None;
            },
        }
        i = i + 1;
    }
    assert(s.skip(to - from) =~= Seq::empty());
    Some(acc)
}

fn push_scalar(out: &mut Vec<u8>, n: u32)
    requires
        n < 0x10000,
    ensures
        final(out)@ == old(out)@ + escape_bytes(n),
{
    let v: u32 = if 0xD800 <= n && n <= 0xDFFF {
        0xFFFD
    } else {
        n
    };
    if v <= 0x7F {
        out.push((v & 0x7F) as u8);
    } else if v <= 0x7FF {
        out.push(0xC0u8 | ((v >> 6u32) & 0x1F) as u8);
        out.push(0x80u8 | (v & 0x3F) as u8);
    } else {
        out.push(0xE0u8 | ((v >> 12u32) & 0x0F) as u8);
        out.push(0x80u8 | ((v >> 6u32) & 0x3F) as u8);
        out.push(0x80u8 | (v & 0x3F) as u8);
    }
    assert(out@ =~= old(out)@ + escape_bytes(n));
}

/// Gives the decoded value of a string field in a line of JSON, without reading the rest. Bytes
/// that need no escape come out unchanged.
pub fn json_str_field(line: &[u8], field: &str) -> (r: Option<Vec<u8>>)
    ensures
        match r {
            Some(v) => str_field(line@, field@) == Some(v@),
            None => str_field(line@, field@) is None,
        },
{
    let mut key = "\"".to_owned();
    key.append(field);
    key.append("\":\"");
    let kb = key.as_str().as_bytes();
    let start = match text::find_bytes(line, kb) {
        None => {
            return None;
        },
        Some(i) => i,
    };
    proof {
        text::find_from_first(line@, kb@, 0);
        assert(text::has_at(line@, start as int, kb@));
    }
    let n: usize = line.len();
    let mut i: usize = start + kb.len();
    let mut out: Vec<u8> = Vec::new();
    while i < n
        invariant
            n == line@.len(),
            i <= n,
            decoded(line@, i as int, out@) == str_field(line@, field@),
        decreases n - i,
    {
        let b: u8 = line[i];
        if b == 34 {
            return Some(out);
        }
        if b != 92 {
            out.push(b);
            i = i + 1;
        } else {
            if i + 1 >= n {
                return None;
            }
            let e: u8 = line[i + 1];
            if e != 117 {
                let c: u8 = if e == 110 {
                    10
                } else if e == 116 {
                    9
                } else if e == 114 {
                    13
                } else {
                    e
                };
                out.push(c);
                i = i + 2;
            } else {
                if n - i < 6 {
                    return None;
                }
                let ghost h = line@.subrange(i + 2, i + 6);
                let number = if line[i + 2] == 43 {
                    assert(h.skip(1) =~= line@.subrange(i + 3, i + 6));
                    read_hex(line, i + 3, i + 6)
                } else {
                    read_hex(line, i + 2, i + 6)
                };
                match number {
                    None => {
                        return None;
                    },
                    Some(v) => {
                        push_scalar(&mut out, v);
                    },
                }
                i = i + 6;
            }
        }
    }
    None
}

/// What is done with a line that `rustc` writes to its standard error.
pub enum Message {
    /// Metadata was written to this path: publish it.
    Metadata(Vec<u8>),
    /// Nothing is done.
    Drop,
    /// A rendered diagnostic: pass it on.
    Rendered(Vec<u8>),
    /// No JSON: pass the line on.
    Pass,
}

/// What a [`Message`] holds.
pub enum MessageView {
    Metadata(Seq<u8>),
    Drop,
    Rendered(Seq<u8>),
    Pass,
}

impl View for Message {
    type V = MessageView;

    open spec fn view(&self) -> MessageView {
        match self {
            Message::Metadata(p) => MessageView::Metadata(p@),
            Message::Drop => MessageView::Drop,
            Message::Rendered(t) => MessageView::Rendered(t@),
            Message::Pass => MessageView::Pass,
        }
    }
}

/// What is to be done with a line.
pub open spec fn message_of(line: Seq<u8>) -> MessageView {
    if text::occurs(line, encode_utf8("\"emit\":\"metadata\""@)) {
        match str_field(line, "artifact"@) {
            Some(p) => MessageView::Metadata(p),
            None => MessageView::Drop,
        }
    } else if text::occurs(line, encode_utf8("\"$message_type\":\"artifact\""@)) {
        MessageView::Drop
    } else if text::occurs(line, encode_utf8("\"rendered\":\""@)) {
        match str_field(line, "rendered"@) {
            Some(t) => MessageView::Rendered(t),
            None => MessageView::Drop,
        }
    } else {
        MessageView::Pass
    }
}

fn line_has(line: &[u8], mark: &str) -> (r: bool)
    ensures
        r == text::occurs(line@, encode_utf8(mark@)),
{
    let m = mark.as_bytes();
    if m.len() == 0 {
        assert(line@.subrange(0, 0) =~= m@);
        assert(text::has_at(line@, 0, m@));
        return true;
    }
    memchr_contains(line, m)
}

/// Tells what is to be done with a line.
pub fn dispatch(line: &[u8]) -> (r: Message)
    ensures
        r@ == message_of(line@),
{
    if line_has(line, "\"emit\":\"metadata\"") {
        match json_str_field(line, "artifact") {
            Some(p) => Message::Metadata(p),
            None => Message::Drop,
        }
    } else if line_has(line, "\"$message_type\":\"artifact\"") {
        Message::Drop
    } else if line_has(line, "\"rendered\":\"") {
        match json_str_field(line, "rendered") {
            Some(t) => Message::Rendered(t),
            None => Message::Drop,
        }
    } else {
        Message::Pass
    }
}

/// How the wrapper is set up.
pub struct Cfg {
    pub real_rustc: String,
    pub rmeta_dir: String,
    pub expected_rmeta: String,
    pub skip_link_pass: bool,
    /// All dependencies, for the crate and for its build script.
    pub complete_deps: Vec<String>,
}

impl Cfg {
    /// The setup that some variables give. An unset variable counts as empty.
    pub fn new(
        real_rustc: String,
        rmeta_dir: String,
        expected_rmeta: String,
        skip_link_pass: &str,
        complete_deps: &str,
        complete_build_deps: &str,
    ) -> (r: Self)
        ensures
            r.real_rustc@ == real_rustc@,
            r.rmeta_dir@ == rmeta_dir@,
            r.expected_rmeta@ == expected_rmeta@,
            r.skip_link_pass == (skip_link_pass@.len() > 0),
            r.complete_deps.deep_view() == text::words(
                complete_deps@ + " "@ + complete_build_deps@,
            ),
    {
        let mut deps = complete_deps.to_owned();
        deps.append(" ");
        deps.append(complete_build_deps);
        let skip = text::chars_of(skip_link_pass).len() > 0;
        Cfg {
            real_rustc,
            rmeta_dir,
            expected_rmeta,
            skip_link_pass: skip,
            complete_deps: text::split_whitespace(deps.as_str()),
        }
    }
}

/// Whether a call goes straight to the compiler with the libraries of all dependencies: everything
/// that links, the build script, and probes by build scripts.
pub fn needs_libraries(c: &Classified) -> (r: bool)
    ensures
        r == (c@.lib_types.len() == 0 || !c@.out_is_target_lib),
{
    c.lib_types.len() == 0 || !c.out_is_target_lib
}

/// Whether the linking half runs behind the library half: the latter succeeded, there is something
/// to link, and it was not switched off.
pub fn needs_link_pass(c: &Classified, rc: i32, skip_link_pass: bool) -> (r: bool)
    ensures
        r == (rc == 0 && c@.link_types.len() > 0 && !skip_link_pass),
{
    rc == 0 && c.link_types.len() > 0 && !skip_link_pass
}

/// The exit code of both halves: that of the first unless it succeeded.
pub fn exit_code(rc: i32, rc2: i32) -> (r: i32)
    ensures
        r == if rc != 0 { rc } else { rc2 },
{
    if rc != 0 {
        rc
    } else {
        rc2
    }
}

/// Whether published metadata is what dependents wait for. Build scripts that probe the compiler
/// make other metadata, which must not be signalled.
pub fn signals(base_name: &str, expected_rmeta: &str) -> (r: bool)
    ensures
        r == (base_name@ == expected_rmeta@),
{
    text::str_eq(base_name, expected_rmeta)
}

/// The line that signals early metadata to the scheduler.
pub open spec fn meta_ready(rmeta_dir: Seq<char>) -> Seq<char> {
    "__META_READY__ "@ + rmeta_dir + "\n"@
}

/// Writes the line that signals early metadata to the scheduler.
pub fn meta_ready_line(rmeta_dir: &str) -> (r: String)
    ensures
        r@ == meta_ready(rmeta_dir@),
{
    let mut s = "__META_READY__ ".to_owned();
    s.append(rmeta_dir);
    s.append("\n");
    s
}

/// A byte as JSON writes it in a string: quotes, backslashes and line ends are escaped.
pub open spec fn escaped_byte(b: u8) -> Seq<u8> {
    if b == 34 || b == 92 {
        seq![92u8, b]
    } else if b == 10 {
        seq![92u8, 110u8]
    } else if b == 9 {
        seq![92u8, 116u8]
    } else if b == 13 {
        seq![92u8, 114u8]
    } else {
        seq![b]
    }
}

/// Bytes as JSON writes them in a string.
pub open spec fn escaped(v: Seq<u8>) -> Seq<u8>
    decreases v.len(),
{
    if v.len() == 0 {
        Seq::empty()
    } else {
        escaped_byte(v[0]) + escaped(v.skip(1))
    }
}

proof fn decoding_from(line: Seq<u8>, i: int, v: Seq<u8>, acc: Seq<u8>)
    requires
        text::has_at(line, i, escaped(v).push(34u8)),
    ensures
        decoded(line, i, acc) == Some(acc + v),
    decreases v.len(),
{
    let e = escaped(v).push(34u8);
    let w = line.subrange(i, i + e.len());
    if v.len() == 0 {
        assert(w[0] == 34u8);
        assert(acc + v =~= acc);
    } else {
        let b = v[0];
        let h = escaped_byte(b);
        let t = escaped(v.skip(1)).push(34u8);
        assert(e =~= h + t);
        assert(w[0] == h[0]);
        let j = i + h.len();
        assert(line.subrange(j, j + t.len()) =~= t) by {
            assert forall|k: int| 0 <= k < t.len() implies line.subrange(j, j + t.len())[k] == t[k] by {
                assert(w[h.len() + k] == e[h.len() + k]);
            }
        }
        if h.len() == 2 {
            assert(w[1] == h[1]);
        }
        decoding_from(line, j, v.skip(1), acc.push(b));
        assert(acc.push(b) + v.skip(1) =~= acc + v);
    }
}

/// A string field reads back as what was written: all bytes, those of multi-byte characters too,
/// come out unchanged. The name and the string stand where the name first occurs as a key.
pub proof fn field_reads_back(line: Seq<u8>, field: Seq<char>, i: int, v: Seq<u8>)
    requires
        text::find_from(line, encode_utf8("\""@ + field + "\":\""@), 0) == Some(i),
        text::has_at(
            line,
            i + encode_utf8("\""@ + field + "\":\""@).len(),
            escaped(v).push(34u8),
        ),
    ensures
        str_field(line, field) == Some(v),
{
    let key = encode_utf8("\""@ + field + "\":\""@);
    decoding_from(line, i + key.len(), v, Seq::empty());
    assert(Seq::<u8>::empty() + v =~= v);
}

/// Whether words give crate types that all are, or all are not, types of which metadata suffices:
/// each as one word, or as the option and the type.
pub open spec fn types_only(words: Seq<Seq<char>>, lib: bool) -> bool
    decreases words.len(),
{
    if words.len() == 0 {
        true
    } else {
        match text::without_prefix(words.last(), "--crate-type="@) {
            Some(t) => lib_type(t) == lib && types_only(words.drop_last(), lib) || (words.len() > 1
                && words[words.len() - 2] == "--crate-type"@ && lib_type(words.last()) == lib
                && types_only(words.drop_last().drop_last(), lib)),
            None => words.len() > 1 && words[words.len() - 2] == "--crate-type"@ && lib_type(
                words.last(),
            ) == lib && types_only(words.drop_last().drop_last(), lib),
        }
    }
}

/// What becomes of an argument: it stays among the arguments, names a type of the library half or
/// of the linking half, or is dropped.
pub enum Role {
    Arg,
    Lib,
    Link,
    Dropped,
}

/// The role of a crate type.
pub open spec fn type_role(t: Seq<char>) -> Role {
    if lib_type(t) {
        Role::Lib
    } else {
        Role::Link
    }
}

/// The role of each argument.
pub open spec fn roles(a: Seq<Seq<char>>) -> Seq<Role>
    decreases a.len(),
{
    if a.len() == 0 {
        Seq::empty()
    } else {
        let s = a[0];
        if s == "--color"@ {
            if a.len() == 1 {
                seq![Role::Dropped]
            } else {
                seq![Role::Dropped, Role::Dropped] + roles(a.skip(2))
            }
        } else if "--color="@.is_prefix_of(s) {
            seq![Role::Dropped] + roles(a.skip(1))
        } else if s == "-L"@ || (text::without_prefix(s, "-Ldependency="@) is None && s
            == "--out-dir"@) {
            if a.len() == 1 {
                seq![Role::Arg]
            } else {
                seq![Role::Arg, Role::Arg] + roles(a.skip(2))
            }
        } else if text::without_prefix(s, "-Ldependency="@) is Some {
            seq![Role::Arg] + roles(a.skip(1))
        } else if s == "--crate-type"@ {
            if a.len() == 1 {
                seq![Role::Dropped]
            } else {
                seq![type_role(a[1]), type_role(a[1])] + roles(a.skip(2))
            }
        } else {
            match text::without_prefix(s, "--crate-type="@) {
                Some(t) => seq![type_role(t)] + roles(a.skip(1)),
                None => seq![Role::Arg] + roles(a.skip(1)),
            }
        }
    }
}

/// The arguments in one role, in their order.
pub open spec fn picked(a: Seq<Seq<char>>, rs: Seq<Role>, r: Role) -> Seq<Seq<char>>
    decreases a.len(),
{
    if a.len() == 0 || rs.len() == 0 {
        Seq::empty()
    } else if rs[0] == r {
        seq![a[0]] + picked(a.skip(1), rs.skip(1), r)
    } else {
        picked(a.skip(1), rs.skip(1), r)
    }
}

/// The arguments in one role.
pub open spec fn in_role(a: Seq<Seq<char>>, r: Role) -> Seq<Seq<char>> {
    picked(a, roles(a), r)
}

proof fn one_role(a: Seq<Seq<char>>, x: Role, r: Role)
    requires
        a.len() > 0,
        roles(a) == seq![x] + roles(a.skip(1)),
    ensures
        in_role(a, r) == if x == r {
            seq![a[0]] + in_role(a.skip(1), r)
        } else {
            in_role(a.skip(1), r)
        },
{
    assert(roles(a).skip(1) =~= roles(a.skip(1)));
}

proof fn two_roles(a: Seq<Seq<char>>, x: Role, r: Role)
    requires
        a.len() > 1,
        roles(a) == seq![x, x] + roles(a.skip(2)),
    ensures
        in_role(a, r) == if x == r {
            seq![a[0], a[1]] + in_role(a.skip(2), r)
        } else {
            in_role(a.skip(2), r)
        },
{
    let rs = roles(a);
    let b = a.skip(1);
    assert(b.skip(1) =~= a.skip(2));
    assert(rs.skip(1).skip(1) =~= roles(a.skip(2)));
    assert(picked(b, rs.skip(1), r) == if x == r {
        seq![a[1]] + in_role(a.skip(2), r)
    } else {
        in_role(a.skip(2), r)
    });
    assert(seq![a[0]] + (seq![a[1]] + in_role(a.skip(2), r)) =~= seq![a[0], a[1]] + in_role(
        a.skip(2),
        r,
    ));
}

/// How the arguments begin: the role of the first one or two, and how they are sorted behind those
/// in `c`.
spec fn first_step(c: ClassView, a: Seq<Seq<char>>) -> (Role, nat, ClassView) {
    let s = a[0];
    let one = a.len() == 1;
    if s == "--color"@ {
        (Role::Dropped, if one { 1 } else { 2 }, c)
    } else if "--color="@.is_prefix_of(s) {
        (Role::Dropped, 1, c)
    } else if s == "-L"@ {
        if one {
            (Role::Arg, 1, with_arg(c, s))
        } else {
            (
                Role::Arg,
                2,
                with_arg(
                    with_dir(with_arg(c, s), text::without_prefix(a[1], "dependency="@)),
                    a[1],
                ),
            )
        }
    } else if text::without_prefix(s, "-Ldependency="@) is Some {
        (Role::Arg, 1, with_arg(with_dir(c, text::without_prefix(s, "-Ldependency="@)), s))
    } else if s == "--out-dir"@ {
        if one {
            (Role::Arg, 1, with_arg(c, s))
        } else {
            let d = with_arg(with_arg(c, s), a[1]);
            (
                Role::Arg,
                2,
                ClassView {
                    out_is_target_lib: d.out_is_target_lib || a[1] == "target/lib"@,
                    ..d
                },
            )
        }
    } else if s == "--crate-type"@ {
        if one {
            (Role::Dropped, 1, c)
        } else {
            (type_role(a[1]), 2, with_type(c, a[1], seq![s, a[1]]))
        }
    } else {
        match text::without_prefix(s, "--crate-type="@) {
            Some(t) => (type_role(t), 1, with_type(c, t, seq![s])),
            None => (Role::Arg, 1, with_arg(c, s)),
        }
    }
}

proof fn step_by_step(c: ClassView, a: Seq<Seq<char>>, r: Role)
    requires
        a.len() > 0,
    ensures
        ({
            let (x, n, d) = first_step(c, a);
            &&& 1 <= n <= 2
            &&& n <= a.len()
            &&& sorted_out(c, a) == sorted_out(d, a.skip(n as int))
            &&& roles(a) == (if n == 1 { seq![x] } else { seq![x, x] }) + roles(a.skip(n as int))
            &&& in_role(a, r) == (if x == r { a.take(n as int) } else { Seq::empty() }) + in_role(
                a.skip(n as int),
                r,
            )
        }),
{
    let (x, n, d) = first_step(c, a);
    let rest = a.skip(n as int);
    if a.len() == n {
        assert(rest =~= Seq::empty());
        assert(sorted_out(d, rest) == d);
        assert(roles(rest) =~= Seq::empty());
        assert(in_role(rest, r) =~= Seq::empty());
    }
    assert(roles(a) =~= (if n == 1 { seq![x] } else { seq![x, x] }) + roles(rest));
    if n == 1 {
        one_role(a, x, r);
        assert(a.take(1) =~= seq![a[0]]);
    } else {
        two_roles(a, x, r);
        assert(a.take(2) =~= seq![a[0], a[1]]);
    }
    assert(Seq::<Seq<char>>::empty() + in_role(rest, r) =~= in_role(rest, r));
}

proof fn sorted_by_role(c: ClassView, a: Seq<Seq<char>>)
    ensures
        sorted_out(c, a).args == c.args + in_role(a, Role::Arg),
        sorted_out(c, a).lib_types == c.lib_types + in_role(a, Role::Lib),
        sorted_out(c, a).link_types == c.link_types + in_role(a, Role::Link),
        roles(a).len() == a.len(),
    decreases a.len(),
{
    if a.len() == 0 {
        assert(c.args + in_role(a, Role::Arg) =~= c.args);
        assert(c.lib_types + in_role(a, Role::Lib) =~= c.lib_types);
        assert(c.link_types + in_role(a, Role::Link) =~= c.link_types);
    } else {
        let (x, n, d) = first_step(c, a);
        let rest = a.skip(n as int);
        step_by_step(c, a, Role::Arg);
        step_by_step(c, a, Role::Lib);
        step_by_step(c, a, Role::Link);
        sorted_by_role(d, rest);
        let t = a.take(n as int);
        let none = Seq::<Seq<char>>::empty();
        assert(d.args =~= c.args + (if x == Role::Arg { t } else { none }));
        assert(d.lib_types =~= c.lib_types + (if x == Role::Lib { t } else { none }));
        assert(d.link_types =~= c.link_types + (if x == Role::Link { t } else { none }));
        assert(sorted_out(c, a).args =~= c.args + in_role(a, Role::Arg));
        assert(sorted_out(c, a).lib_types =~= c.lib_types + in_role(a, Role::Lib));
        assert(sorted_out(c, a).link_types =~= c.link_types + in_role(a, Role::Link));
    }
}

proof fn dropped_by_role(a: Seq<Seq<char>>, i: int)
    requires
        0 <= i < roles(a).len(),
        roles(a)[i] == Role::Dropped,
    ensures
        roles(a).len() == a.len(),
        ({
            ||| a[i] == "--color"@
            ||| "--color="@.is_prefix_of(a[i])
            ||| i > 0 && a[i - 1] == "--color"@ && roles(a)[i - 1] == Role::Dropped
            ||| i == a.len() - 1 && a[i] == "--crate-type"@
        }),
    decreases a.len(),
{
    sorted_by_role(no_args(), a);
    let (x, n, d) = first_step(no_args(), a);
    step_by_step(no_args(), a, Role::Arg);
    let rest = a.skip(n as int);
    if i >= n {
        assert(roles(a)[i] == roles(rest)[i - n]);
        sorted_by_role(no_args(), rest);
        dropped_by_role(rest, i - n);
        assert(rest[i - n] == a[i]);
        if i - n > 0 {
            assert(rest[i - n - 1] == a[i - 1]);
            assert(roles(a)[i - 1] == roles(rest)[i - n - 1]);
        }
    }
}

/// Sorting out parts the arguments by their positions: each list holds those in its role, in their
/// order, and all that is in none is `--color` with its value, `--color=..`, and a last
/// `--crate-type` without a value.
pub proof fn arguments_are_parted(a: Seq<Seq<char>>)
    ensures
        roles(a).len() == a.len(),
        sorted_out(no_args(), a).args == in_role(a, Role::Arg),
        sorted_out(no_args(), a).lib_types == in_role(a, Role::Lib),
        sorted_out(no_args(), a).link_types == in_role(a, Role::Link),
        forall|i: int|
            0 <= i < a.len() && #[trigger] roles(a)[i] == Role::Dropped ==> {
                ||| a[i] == "--color"@
                ||| "--color="@.is_prefix_of(a[i])
                ||| i > 0 && a[i - 1] == "--color"@ && roles(a)[i - 1] == Role::Dropped
                ||| i == a.len() - 1 && a[i] == "--crate-type"@
            },
{
    sorted_by_role(no_args(), a);
    let none = Seq::<Seq<char>>::empty();
    assert(none + in_role(a, Role::Arg) =~= in_role(a, Role::Arg));
    assert(none + in_role(a, Role::Lib) =~= in_role(a, Role::Lib));
    assert(none + in_role(a, Role::Link) =~= in_role(a, Role::Link));
    assert forall|i: int| 0 <= i < a.len() && #[trigger] roles(a)[i] == Role::Dropped implies {
        ||| a[i] == "--color"@
        ||| "--color="@.is_prefix_of(a[i])
        ||| i > 0 && a[i - 1] == "--color"@ && roles(a)[i - 1] == Role::Dropped
        ||| i == a.len() - 1 && a[i] == "--crate-type"@
    } by {
        dropped_by_role(a, i);
    }
}

proof fn sorted_again(c: ClassView, d: ClassView, a: Seq<Seq<char>>)
    requires
        d.args == c.args,
        d.dep_dirs == c.dep_dirs,
        d.out_is_target_lib == c.out_is_target_lib,
    ensures
        ({
            let e = sorted_out(c, a);
            let f = sorted_out(d, in_role(a, Role::Arg));
            &&& f.args == e.args
            &&& f.dep_dirs == e.dep_dirs
            &&& f.out_is_target_lib == e.out_is_target_lib
            &&& f.lib_types == d.lib_types
            &&& f.link_types == d.link_types
        }),
    decreases a.len(),
{
    if a.len() > 0 {
        let (x, n, c1) = first_step(c, a);
        let rest = a.skip(n as int);
        let b = in_role(a, Role::Arg);
        let b1 = in_role(rest, Role::Arg);
        step_by_step(c, a, Role::Arg);
        if x == Role::Arg {
            assert(b[0] == a[0]);
            if n == 2 {
                assert(b[1] == a[1]);
            }
            assert(b.skip(n as int) =~= b1);
            let (y, m, d1) = first_step(d, b);
            step_by_step(d, b, Role::Arg);
            if n == 1 && a.len() == 1 {
                assert(b1 =~= Seq::empty());
                assert(b.len() == 1);
            }
            assert(m == n);
            sorted_again(c1, d1, rest);
        } else {
            assert(b =~= b1);
            sorted_again(c1, d, rest);
        }
    }
}

/// Sorting out what was sorted out changes nothing: the arguments stay, with what they say of
/// directories and the output, and no types are left in them.
pub proof fn sorting_out_is_done_once(a: Seq<Seq<char>>)
    ensures
        ({
            let c = sorted_out(no_args(), a);
            sorted_out(no_args(), c.args) == (ClassView {
                lib_types: Seq::empty(),
                link_types: Seq::empty(),
                ..c
            })
        }),
{
    arguments_are_parted(a);
    sorted_again(no_args(), no_args(), a);
}

/// The library half gets the library types and the linking half all others, whatever the
/// arguments.
pub proof fn types_are_parted(c: ClassView, a: Seq<Seq<char>>)
    requires
        types_only(c.lib_types, true),
        types_only(c.link_types, false),
    ensures
        types_only(sorted_out(c, a).lib_types, true),
        types_only(sorted_out(c, a).link_types, false),
    decreases a.len(),
{
    if a.len() > 0 {
        let s = a[0];
        let r1 = a.skip(1);
        let r2 = a.skip(2);
        if s == "--color"@ {
            if a.len() > 1 {
                types_are_parted(c, r2);
            }
        } else if "--color="@.is_prefix_of(s) {
            types_are_parted(c, r1);
        } else if s == "-L"@ {
            if a.len() > 1 {
                types_are_parted(
                    with_arg(
                        with_dir(with_arg(c, s), text::without_prefix(a[1], "dependency="@)),
                        a[1],
                    ),
                    r2,
                );
            }
        } else if text::without_prefix(s, "-Ldependency="@) is Some {
            types_are_parted(
                with_arg(with_dir(c, text::without_prefix(s, "-Ldependency="@)), s),
                r1,
            );
        } else if s == "--out-dir"@ {
            if a.len() > 1 {
                let d = with_arg(with_arg(c, s), a[1]);
                types_are_parted(
                    ClassView {
                        out_is_target_lib: d.out_is_target_lib || a[1] == "target/lib"@,
                        ..d
                    },
                    r2,
                );
            }
        } else if s == "--crate-type"@ {
            if a.len() > 1 {
                let d = with_type(c, a[1], seq![s, a[1]]);
                let l = if lib_type(a[1]) { c.lib_types } else { c.link_types };
                let m = l + seq![s, a[1]];
                assert(m.drop_last().drop_last() =~= l);
                assert(m[m.len() - 2] == s);
                assert(m.last() == a[1]);
                types_are_parted(d, r2);
            }
        } else {
            match text::without_prefix(s, "--crate-type="@) {
                Some(t) => {
                    let d = with_type(c, t, seq![s]);
                    let l = if lib_type(t) { c.lib_types } else { c.link_types };
                    let m = l + seq![s];
                    assert(m.drop_last() =~= l);
                    assert(m.last() == s);
                    types_are_parted(d, r1);
                },
                None => {
                    types_are_parted(with_arg(c, s), r1);
                },
            }
        }
    }
}

/// What follows some arguments that are sorted out already.
pub open spec fn then(c: ClassView, d: ClassView) -> ClassView {
    ClassView {
        args: c.args + d.args,
        lib_types: c.lib_types + d.lib_types,
        link_types: c.link_types + d.link_types,
        out_is_target_lib: c.out_is_target_lib || d.out_is_target_lib,
        dep_dirs: c.dep_dirs + d.dep_dirs,
    }
}

/// What is in front of some arguments does not change how they are sorted out.
pub proof fn sorting_out_goes_on(c: ClassView, a: Seq<Seq<char>>)
    ensures
        sorted_out(c, a) == then(c, sorted_out(no_args(), a)),
    decreases a.len(),
{
    if a.len() == 0 {
        assert(then(c, no_args()) =~= c);
    } else {
        let (role, n, next) = first_step(c, a);
        let (role0, n0, next0) = first_step(no_args(), a);
        step_by_step(c, a, Role::Arg);
        step_by_step(no_args(), a, Role::Arg);
        assert(n == n0);
        assert(next =~= then(c, next0));
        let rest = a.skip(n as int);
        sorting_out_goes_on(next, rest);
        sorting_out_goes_on(next0, rest);
        let r = sorted_out(no_args(), rest);
        assert(then(then(c, next0), r) =~= then(c, then(next0, r)));
    }
}

/// A type of crate goes to the library half if it is `lib` or `rlib`, else to the linking half, with
/// its flag, in either spelling. It stays in no other list.
pub proof fn crate_types_go_to_their_half(t: Seq<char>, a: Seq<Seq<char>>)
    ensures
        ({
            let r = sorted_out(no_args(), a);
            let two = sorted_out(no_args(), seq!["--crate-type"@, t] + a);
            let one = sorted_out(no_args(), seq!["--crate-type="@ + t] + a);
            let lib = t == "lib"@ || t == "rlib"@;
            &&& lib ==> two == (ClassView {
                lib_types: seq!["--crate-type"@, t] + r.lib_types,
                ..r
            })
            &&& !lib ==> two == (ClassView {
                link_types: seq!["--crate-type"@, t] + r.link_types,
                ..r
            })
            &&& lib ==> one == (ClassView {
                lib_types: seq!["--crate-type="@ + t] + r.lib_types,
                ..r
            })
            &&& !lib ==> one == (ClassView {
                link_types: seq!["--crate-type="@ + t] + r.link_types,
                ..r
            })
        }),
{
    flags_differ();
    let f2 = seq!["--crate-type"@, t];
    let f1 = seq!["--crate-type="@ + t];
    let a2 = f2 + a;
    let a1 = f1 + a;
    let w = "--crate-type="@;
    assert(a2.skip(2) =~= a);
    assert(a1.skip(1) =~= a);
    assert(w =~= a1[0].take(w.len() as int));
    assert(a1[0].skip(w.len() as int) =~= t);
    starts_like(w, t);
    sorting_out_goes_on(with_type(no_args(), t, f2), a);
    sorting_out_goes_on(with_type(no_args(), t, f1), a);
    let r = sorted_out(no_args(), a);
    assert(no_args().args + r.args =~= r.args);
    assert(no_args().dep_dirs + r.dep_dirs =~= r.dep_dirs);
    assert(no_args().lib_types + r.lib_types =~= r.lib_types);
    assert(no_args().link_types + r.link_types =~= r.link_types);
    assert(no_args().lib_types + f2 =~= f2);
    assert(no_args().lib_types + f1 =~= f1);
}

/// The flags are told apart by their texts.
proof fn flags_differ()
    ensures
        "--color"@ != "-L"@,
        "--color"@ != "--out-dir"@,
        "--color"@ != "--crate-type"@,
        "-L"@ != "--out-dir"@,
        "-L"@ != "--crate-type"@,
        "--out-dir"@ != "--crate-type"@,
        !"--color="@.is_prefix_of("-L"@),
        !"--color="@.is_prefix_of("--out-dir"@),
        !"--color="@.is_prefix_of("--crate-type"@),
        !"-Ldependency="@.is_prefix_of("-L"@),
        !"-Ldependency="@.is_prefix_of("--out-dir"@),
        !"-Ldependency="@.is_prefix_of("--crate-type"@),
        "--color"@.len() == 7,
        "-L"@.len() == 2,
        "--out-dir"@.len() == 9,
        "--crate-type"@.len() == 12,
        "--color="@.len() == 8,
        "-Ldependency="@.len() == 13,
        "--crate-type="@.len() == 13,
{
    reveal_strlit("--color");
    reveal_strlit("--color=");
    reveal_strlit("-L");
    reveal_strlit("-Ldependency=");
    reveal_strlit("--out-dir");
    reveal_strlit("--crate-type");
    reveal_strlit("--crate-type=");
    assert("--color"@.len() == 7 && "-L"@.len() == 2 && "--out-dir"@.len() == 9
        && "--crate-type"@.len() == 12);
    let c = "--color="@;
    let l = "-Ldependency="@;
    if c.is_prefix_of("--out-dir"@) {
        assert("--out-dir"@.subrange(0, 8)[2] == c[2]);
    }
    if c.is_prefix_of("--crate-type"@) {
        assert("--crate-type"@.subrange(0, 8)[3] == c[3]);
    }
}

/// A word behind one of the flags that end in an equals sign starts with no other flag.
proof fn starts_like(w: Seq<char>, t: Seq<char>)
    requires
        w == "--crate-type="@ || w == "-Ldependency="@ || w == "--color="@,
    ensures
        w != "--color="@ ==> !"--color="@.is_prefix_of(w + t),
        w == "--crate-type="@ ==> text::without_prefix(w + t, "-Ldependency="@) is None,
        w + t != "--color"@,
        w + t != "-L"@,
        w + t != "--out-dir"@,
        w + t != "--crate-type"@,
{
    reveal_strlit("--color");
    reveal_strlit("--color=");
    reveal_strlit("-L");
    reveal_strlit("-Ldependency=");
    reveal_strlit("--out-dir");
    reveal_strlit("--crate-type");
    reveal_strlit("--crate-type=");
    let s = w + t;
    assert(s[0] == w[0] && s[1] == w[1] && s[2] == w[2] && s[3] == w[3]);
    let c = "--color="@;
    let l = "-Ldependency="@;
    if c.is_prefix_of(s) {
        assert(s.subrange(0, 8)[1] == c[1]);
        assert(s.subrange(0, 8)[3] == c[3]);
    }
    if l.is_prefix_of(s) {
        assert(s.subrange(0, 13)[1] == l[1]);
    }
    if s == "--color"@ {
        assert(s.len() == 7);
    }
    if s == "--out-dir"@ {
        assert(s[3] == 'u');
        assert(s[2] == 'o');
    }
    if s == "--crate-type"@ {
        assert(s.len() == 12);
        assert(w == c);
        assert(s[3] == 'r');
    }
}

/// A directory with dependencies is noted in either spelling, and the argument stays.
pub proof fn dependency_directories_are_noted(d: Seq<char>, a: Seq<Seq<char>>)
    ensures
        ({
            let r = sorted_out(no_args(), a);
            let two = sorted_out(no_args(), seq!["-L"@, "dependency="@ + d] + a);
            let one = sorted_out(no_args(), seq!["-Ldependency="@ + d] + a);
            &&& two == (ClassView {
                args: seq!["-L"@, "dependency="@ + d] + r.args,
                dep_dirs: seq![d] + r.dep_dirs,
                ..r
            })
            &&& one == (ClassView {
                args: seq!["-Ldependency="@ + d] + r.args,
                dep_dirs: seq![d] + r.dep_dirs,
                ..r
            })
        }),
{
    flags_differ();
    let x = "dependency="@ + d;
    let y = "-Ldependency="@ + d;
    let p = "dependency="@;
    let q = "-Ldependency="@;
    let a2 = seq!["-L"@, x] + a;
    let a1 = seq![y] + a;
    assert(a2.skip(2) =~= a);
    assert(a1.skip(1) =~= a);
    assert(p =~= x.take(p.len() as int));
    assert(x.skip(p.len() as int) =~= d);
    assert(q =~= y.take(q.len() as int));
    assert(y.skip(q.len() as int) =~= d);
    starts_like(q, d);
    let n2 = with_arg(with_dir(with_arg(no_args(), "-L"@), Some(d)), x);
    let n1 = with_arg(with_dir(no_args(), Some(d)), y);
    sorting_out_goes_on(n2, a);
    sorting_out_goes_on(n1, a);
    let r = sorted_out(no_args(), a);
    assert(n2.args =~= seq!["-L"@, x]);
    assert(n1.args =~= seq![y]);
    assert(n2.dep_dirs =~= seq![d]);
    assert(n1.dep_dirs =~= seq![d]);
    assert(no_args().lib_types + r.lib_types =~= r.lib_types);
    assert(no_args().link_types + r.link_types =~= r.link_types);
}

/// Colours are dropped, with their value; the output directory stays, and it is noted whether it is
/// `target/lib`.
pub proof fn colours_go_and_directories_stay(v: Seq<char>, a: Seq<Seq<char>>)
    ensures
        sorted_out(no_args(), seq!["--color"@, v] + a) == sorted_out(no_args(), a),
        sorted_out(no_args(), seq!["--color="@ + v] + a) == sorted_out(no_args(), a),
        ({
            let r = sorted_out(no_args(), a);
            sorted_out(no_args(), seq!["--out-dir"@, v] + a) == (ClassView {
                args: seq!["--out-dir"@, v] + r.args,
                out_is_target_lib: v == "target/lib"@ || r.out_is_target_lib,
                ..r
            })
        }),
{
    flags_differ();
    let w = "--color="@;
    let a2 = seq!["--color"@, v] + a;
    let a1 = seq![w + v] + a;
    let a3 = seq!["--out-dir"@, v] + a;
    assert(a2.skip(2) =~= a);
    assert(a1.skip(1) =~= a);
    assert(a3.skip(2) =~= a);
    assert(w =~= (w + v).take(w.len() as int));
    starts_like(w, v);
    let r = sorted_out(no_args(), a);
    let d = with_arg(with_arg(no_args(), "--out-dir"@), v);
    let n = ClassView { out_is_target_lib: v == "target/lib"@, ..d };
    assert(d.out_is_target_lib || v == "target/lib"@ <==> n.out_is_target_lib);
    sorting_out_goes_on(n, a);
    assert(n.args =~= seq!["--out-dir"@, v]);
    assert(no_args().lib_types + r.lib_types =~= r.lib_types);
    assert(no_args().link_types + r.link_types =~= r.link_types);
    assert(no_args().dep_dirs + r.dep_dirs =~= r.dep_dirs);
}

/// For each argument that names early metadata of a build, and for no other, there is a mark to wait
/// for: `done` in the place of that build.
pub proof fn each_build_is_waited_for(args: Seq<Seq<char>>, m: Seq<char>)
    ensures
        marks(args).contains(m) <==> exists|i: int|
            0 <= i < args.len() && (rmeta_place(#[trigger] args[i]) matches Some(t) && m == t
                + "/done"@),
    decreases args.len(),
{
    if args.len() > 0 {
        let f = args.drop_last();
        let z = args.len() - 1;
        each_build_is_waited_for(f, m);
        assert(args[z] == args.last());
        if let Some(t) = rmeta_place(args.last()) {
            crate::graph::pushed(marks(f), t + "/done"@, m);
        }
        if exists|i: int|
            0 <= i < f.len() && (rmeta_place(#[trigger] f[i]) matches Some(t) && m == t
                + "/done"@) {
            let i = choose|i: int|
                0 <= i < f.len() && (rmeta_place(#[trigger] f[i]) matches Some(t) && m == t
                    + "/done"@);
            assert(args[i] == f[i]);
        }
        if exists|i: int|
            0 <= i < args.len() && (rmeta_place(#[trigger] args[i]) matches Some(t) && m == t
                + "/done"@) {
            let i = choose|i: int|
                0 <= i < args.len() && (rmeta_place(#[trigger] args[i]) matches Some(t) && m == t
                    + "/done"@);
            if i < f.len() {
                assert(f[i] == args[i]);
            }
        }
    }
}

/// Early metadata that is there is used; where it is missing the shared library goes before the
/// static one, and without either the argument stays. Other arguments stay in any case.
pub proof fn missing_metadata_gives_way(
    name: Seq<char>,
    t: Seq<char>,
    f: Seq<char>,
    there: Set<Seq<char>>,
)
    requires
        !name.contains('='),
        in_progress(t),
        !f.contains('/'),
        !".rmeta"@.is_suffix_of(t + "/lib/lib/"@ + f),
    ensures
        ({
            let p = t + "/rmeta/"@ + f + ".rmeta"@;
            let arg = name + "="@ + p;
            let base = t + "/lib/lib/"@ + f;
            &&& there.contains(p) ==> resolved_arg(arg, there) == arg
            &&& !there.contains(p) && there.contains(base + ".so"@) ==> resolved_arg(arg, there)
                == name + "="@ + base + ".so"@
            &&& !there.contains(p) && !there.contains(base + ".so"@) && there.contains(
                base + ".rlib"@,
            ) ==> resolved_arg(arg, there) == name + "="@ + base + ".rlib"@
            &&& !there.contains(p) && !there.contains(base + ".so"@) && !there.contains(
                base + ".rlib"@,
            ) ==> resolved_arg(arg, there) == arg
        }),
        forall|other: Seq<char>|
            #![trigger resolved_arg(other, there)]
            rmeta_place(other) is None ==> resolved_arg(other, there) == other && linked_arg(other)
                == other,
{
    let p = t + "/rmeta/"@ + f + ".rmeta"@;
    let arg = name + "="@ + p;
    linking_keeps_the_place(name, t, f);
    reveal_strlit("=");
    reveal_strlit("/rmeta/");
    reveal_strlit(".rmeta");
    first_equals(name, p, 0);
    assert(arg.take(name.len() as int) =~= name);
    assert(arg.skip(name.len() as int + 1) =~= p);
    let g = p.skip((t.len() + 7) as int);
    assert(g.take(g.len() - 6) =~= f);
    assert(committed_base(p, t) == t + "/lib/lib/"@ + f);
}

/// What the compiler says of early metadata is taken before all else, other artifacts are passed
/// over in silence, a diagnosis is shown as it was rendered, and any other line is passed on.
pub proof fn messages_are_taken_in_order(line: Seq<u8>)
    ensures
        ({
            let meta = text::occurs(line, encode_utf8("\"emit\":\"metadata\""@));
            let artifact = text::occurs(line, encode_utf8("\"$message_type\":\"artifact\""@));
            let rendered = text::occurs(line, encode_utf8("\"rendered\":\""@));
            &&& meta ==> (message_of(line) matches MessageView::Metadata(p) && str_field(
                line,
                "artifact"@,
            ) == Some(p)) || (message_of(line) == MessageView::Drop && str_field(line, "artifact"@)
                is None)
            &&& !meta && artifact ==> message_of(line) == MessageView::Drop
            &&& !meta && !artifact && rendered ==> (message_of(line) matches MessageView::Rendered(p)
                && str_field(line, "rendered"@) == Some(p)) || (message_of(line)
                == MessageView::Drop && str_field(line, "rendered"@) is None)
            &&& !meta && !artifact && !rendered ==> message_of(line) == MessageView::Pass
        }),
{
}

/// A Unicode escape stands for the character with that number; a number that is no character's
/// stands for the replacement character.
pub proof fn unicode_escapes_are_read(line: Seq<u8>, i: int, acc: Seq<u8>, n: u32)
    requires
        0 <= i,
        i + 6 <= line.len(),
        line[i] == 92,
        line[i + 1] == 117,
        n < 0x10000,
        forall|k: int|
            0 <= k < 4 ==> hex_value(#[trigger] line[i + 2 + k]) == Some(
                ((n >> ((12 - 4 * k) as u32)) & 0xF) as u32,
            ),
    ensures
        decoded(line, i, acc) == decoded(
            line,
            i + 6,
            acc + encode_scalar(if is_scalar(n) { n } else { 0xFFFD }),
        ),
{
    let s = line.subrange(i + 2, i + 6);
    assert(hex_value(line[i + 2 + 0]) is Some);
    assert(hex_value(line[i + 2 + 1]) is Some);
    assert(hex_value(line[i + 2 + 2]) is Some);
    assert(hex_value(line[i + 2 + 3]) is Some);
    assert(s[0] == line[i + 2] && s[1] == line[i + 3] && s[2] == line[i + 4] && s[3] == line[i + 5]);
    assert(s[0] != 43);
    let a = ((n >> 12u32) & 0xF) as u32;
    let b = ((n >> 8u32) & 0xF) as u32;
    let c = ((n >> 4u32) & 0xF) as u32;
    let d = ((n >> 0u32) & 0xF) as u32;
    let s1 = s.skip(1);
    let s2 = s1.skip(1);
    let s3 = s2.skip(1);
    assert(s1[0] == s[1] && s2[0] == s[2] && s3[0] == s[3]);
    assert(s3.skip(1).len() == 0);
    assert(hex_value(s[0]) == Some(a));
    assert(hex_value(s[1]) == Some(b));
    assert(hex_value(s[2]) == Some(c));
    assert(hex_value(s[3]) == Some(d));
    assert(a <= 15 && b <= 15 && c <= 15 && d <= 15) by (bit_vector)
        requires
            a == ((n >> 12u32) & 0xF) as u32,
            b == ((n >> 8u32) & 0xF) as u32,
            c == ((n >> 4u32) & 0xF) as u32,
            d == ((n >> 0u32) & 0xF) as u32,
    ;
    assert(((a * 16 + b) * 16 + c) * 16 + d == n) by (bit_vector)
        requires
            n < 0x10000,
            a == ((n >> 12u32) & 0xF) as u32,
            b == ((n >> 8u32) & 0xF) as u32,
            c == ((n >> 4u32) & 0xF) as u32,
            d == ((n >> 0u32) & 0xF) as u32,
    ;
    let x1 = (0 * 16 + a) as u32;
    let x2 = (x1 * 16 + b) as u32;
    let x3 = (x2 * 16 + c) as u32;
    let x4 = (x3 * 16 + d) as u32;
    assert(x1 == a && x2 == a * 16 + b && x3 == (a * 16 + b) * 16 + c && x4 == n);
    assert(hex_number(s3.skip(1), x4) == Some(x4));
    assert(hex_number(s3, x3) == Some(x4));
    assert(hex_number(s2, x2) == Some(x4));
    assert(hex_number(s1, x1) == Some(x4));
    assert(hex_number(s, 0) == Some(x4));
}

/// A hexadecimal digit stands for its value, in either case.
pub proof fn hex_digits_have_their_values(d: u8)
    requires
        d < 16,
    ensures
        d < 10 ==> hex_value((48 + d) as u8) == Some(d as u32),
        d >= 10 ==> hex_value((87 + d) as u8) == Some(d as u32) && hex_value((55 + d) as u8)
            == Some(d as u32),
{
}

/// Only a call that makes a library, into `target/lib`, goes ahead before the libraries of its
/// dependencies are there.
pub proof fn only_libraries_go_ahead(c: &Classified, r: bool)
    requires
        call_ensures(needs_libraries, (c,), r),
    ensures
        !r <==> c@.lib_types.len() > 0 && c@.out_is_target_lib,
{
}

/// The linking half runs only behind a library half that succeeded, only where there is something to
/// link, and never where it was switched off.
pub proof fn linking_follows_success(c: &Classified, rc: i32, skip: bool, r: bool)
    requires
        call_ensures(needs_link_pass, (c, rc, skip), r),
    ensures
        rc != 0 ==> !r,
        skip ==> !r,
        c@.link_types.len() == 0 ==> !r,
        rc == 0 && !skip && c@.link_types.len() > 0 ==> r,
{
}

/// A call succeeds exactly if both halves do, and fails with the code of the first that failed.
pub proof fn both_halves_must_succeed(rc: i32, rc2: i32, r: i32)
    requires
        call_ensures(exit_code, (rc, rc2), r),
    ensures
        r == 0 <==> rc == 0 && rc2 == 0,
        rc != 0 ==> r == rc,
        rc == 0 ==> r == rc2,
{
}

/// Only the metadata that dependents wait for is signalled.
pub proof fn probes_are_not_signalled(base: &str, expected: &str, r: bool)
    requires
        call_ensures(signals, (base, expected), r),
    ensures
        r <==> base@ == expected@,
{
}

/// Libraries, shared ones and Rust's own, are linked anew, and nothing else.
pub proof fn libraries_are_linked_anew(name: &str, f: Seq<char>, r: bool)
    requires
        call_ensures(relinked, (name,), r),
    ensures
        name@ == f + ".rlib"@ ==> r,
        name@ == f + ".so"@ ==> r,
        r ==> ".rlib"@.is_suffix_of(name@) || ".so"@.is_suffix_of(name@),
{
    let a = f + ".rlib"@;
    let b = f + ".so"@;
    assert(a.subrange(a.len() - ".rlib"@.len(), a.len() as int) =~= ".rlib"@);
    assert(b.subrange(b.len() - ".so"@.len(), b.len() as int) =~= ".so"@);
}

/// Before a dependency that is being built at `<place>/lib` is linked, `<place>/done` is waited for;
/// a dependency elsewhere is not waited for.
pub proof fn builds_in_progress_are_waited_for(dep: &str, place: Seq<char>, r: Option<String>)
    requires
        call_ensures(closure_mark, (dep,), r),
        dep@ == place + "/lib"@,
    ensures
        in_progress(place) ==> (r matches Some(m) && m@ == place + "/done"@),
        !in_progress(place) ==> r is None,
{
    let s = "/lib"@;
    assert(dep@.subrange(dep@.len() - s.len(), dep@.len() as int) =~= s);
    assert(dep@.take(dep@.len() - s.len()) =~= place);
}

/// The setup of the shim: the link pass is skipped exactly if its variable is not empty, and all
/// dependencies of both kinds are known.
pub proof fn setup_follows_the_variables(
    rustc: String,
    dir: String,
    rmeta: String,
    skip: &str,
    deps: &str,
    build_deps: &str,
    r: Cfg,
)
    requires
        call_ensures(Cfg::new, (rustc, dir, rmeta, skip, deps, build_deps), r),
    ensures
        skip@.len() == 0 ==> !r.skip_link_pass,
        skip@.len() > 0 ==> r.skip_link_pass,
        r.complete_deps.deep_view() == text::words(deps@ + seq![' '] + build_deps@),
        r.real_rustc@ == rustc@,
        r.rmeta_dir@ == dir@,
        r.expected_rmeta@ == rmeta@,
{
    reveal_strlit(" ");
    assert(" "@ =~= seq![' ']);
}

/// What lies directly in `nix-inc/tmp` or `bob/tmp` is being built, and nothing else is.
pub proof fn builds_in_progress_lie_in_tmp(dir: Seq<char>, k: Seq<char>)
    requires
        !k.contains('/'),
    ensures
        in_progress(dir + "/nix-inc/tmp/"@ + k),
        in_progress(dir + "/bob/tmp/"@ + k),
        dir.len() > 0 && dir.last() == '/' && in_progress(dir + k) ==> "/nix-inc/tmp/"@.is_suffix_of(
            dir,
        ) || "/bob/tmp/"@.is_suffix_of(dir),
{
    reveal_strlit("/nix-inc/tmp/");
    reveal_strlit("/bob/tmp/");
    let a = dir + "/nix-inc/tmp/"@;
    let b = dir + "/bob/tmp/"@;
    path::names_start_behind_slashes(a, k);
    path::names_start_behind_slashes(b, k);
    assert((a + k).take(a.len() as int) =~= a);
    assert((b + k).take(b.len() as int) =~= b);
    assert(a.subrange(a.len() - 13, a.len() as int) =~= "/nix-inc/tmp/"@);
    assert(b.subrange(b.len() - 9, b.len() as int) =~= "/bob/tmp/"@);
    if dir.len() > 0 && dir.last() == '/' {
        path::names_start_behind_slashes(dir, k);
        assert((dir + k).take(dir.len() as int) =~= dir);
    }
}

/// A call that puts its output into `target/lib` is noticed, wherever it says so, and the argument
/// stays.
pub proof fn library_output_is_noticed(t: Seq<char>, a: Seq<Seq<char>>)
    ensures
        ({
            let r = sorted_out(no_args(), a);
            let s = sorted_out(no_args(), seq!["--out-dir"@, t] + a);
            &&& s.out_is_target_lib <==> t == "target/lib"@ || r.out_is_target_lib
            &&& s.args == seq!["--out-dir"@, t] + r.args
            &&& s.lib_types == r.lib_types
            &&& s.link_types == r.link_types
            &&& s.dep_dirs == r.dep_dirs
        }),
{
    flags_differ();
    let f = seq!["--out-dir"@, t];
    let b = f + a;
    assert(b.skip(2) =~= a);
    let d = with_arg(with_arg(no_args(), "--out-dir"@), t);
    let c = ClassView { out_is_target_lib: d.out_is_target_lib || t == "target/lib"@, ..d };
    sorting_out_goes_on(c, a);
    let r = sorted_out(no_args(), a);
    assert(c.args =~= f);
    assert(no_args().lib_types + r.lib_types =~= r.lib_types);
    assert(no_args().link_types + r.link_types =~= r.link_types);
    assert(no_args().dep_dirs + r.dep_dirs =~= r.dep_dirs);
}

} // verus!
