//! Pipelining of Rust crates: whose dependents can start on an early `.rmeta`, and which files to
//! expect.
use crate::drv::{Derivation, DrvView};
use crate::overrides;
use crate::text;
use vstd::prelude::*;

verus! {

/// The words of `crateType`, if there is one.
pub open spec fn crate_types(d: DrvView) -> Seq<Seq<char>> {
    match overrides::value_at(d.env, "crateType"@) {
        Some(t) => text::words(t),
        None => Seq::empty(),
    }
}

/// Whether a crate type leaves a library that other crates read.
pub open spec fn is_lib_type(t: Seq<char>) -> bool {
    t == "lib"@ || t == "rlib"@
}

/// Whether a crate type is the product of a link that no other crate reads.
pub open spec fn is_link_type(t: Seq<char>) -> bool {
    t == "cdylib"@ || t == "staticlib"@
}

/// Whether dependents of a crate can start once its `.rmeta` is ready: it emits a library and has
/// no `links` key, whose build script writes what dependents read before their compiler starts.
pub open spec fn pipelineable(d: DrvView) -> bool {
    &&& exists|i: int| 0 <= i < crate_types(d).len() && is_lib_type(#[trigger] crate_types(d)[i])
    &&& match overrides::value_at(d.env, "crateLinks"@) {
        Some(l) => l.len() == 0,
        None => true,
    }
}

/// Whether the build of a crate reads all its libraries in full: not all its types are `lib` or
/// `rlib`, or it names none.
pub open spec fn links(d: DrvView) -> bool {
    ||| crate_types(d).len() == 0
    ||| exists|i: int| 0 <= i < crate_types(d).len() && !is_lib_type(#[trigger] crate_types(d)[i])
}

/// Whether the product of a crate, as a target of its own, is a linked library.
pub open spec fn wants_link(d: DrvView) -> bool {
    exists|i: int| 0 <= i < crate_types(d).len() && is_link_type(#[trigger] crate_types(d)[i])
}

fn types_of(drv: &Derivation) -> (r: Vec<String>)
    ensures
        r.deep_view() == crate_types(drv.deep_view()),
{
    match drv.env.get("crateType") {
        Some(t) => text::split_whitespace(t.as_str()),
        None => {
            let v: Vec<String> = Vec::new();
            assert(v.deep_view() =~= Seq::<Seq<char>>::empty());
            v
        },
    }
}

/// Whether dependents of a crate can start once its `.rmeta` is ready.
pub fn is_pipelineable(drv: &Derivation) -> (r: bool)
    ensures
        r == pipelineable(drv.deep_view()),
{
    let has_links = match drv.env.get("crateLinks") {
        Some(l) => !text::str_eq(l.as_str(), ""),
        None => false,
    };
    proof {
        reveal_strlit("");
        let l = drv.deep_view().env["crateLinks"@];
        assert(l.len() == 0 ==> l =~= ""@);
    }
    if has_links {
        return false;
    }
    let types = types_of(drv);
    let ghost ws = crate_types(drv.deep_view());
    for i in 0..types.len()
        invariant
            types.deep_view() == ws,
            ws == crate_types(drv.deep_view()),
            overrides::value_at(drv.deep_view().env, "crateLinks"@) matches Some(l) ==> l.len()
                == 0,
            forall|j: int| 0 <= j < i ==> !is_lib_type(#[trigger] ws[j]),
    {
        assert(types.deep_view()[i as int] == ws[i as int]);
        if text::str_eq(types[i].as_str(), "lib") || text::str_eq(types[i].as_str(), "rlib") {
            assert(is_lib_type(ws[i as int]));
            return true;
        }
    }
    false
}

/// Whether the build of a crate reads all its libraries in full.
pub fn is_linking(drv: &Derivation) -> (r: bool)
    ensures
        r == links(drv.deep_view()),
{
    let types = types_of(drv);
    let ghost ws = crate_types(drv.deep_view());
    for i in 0..types.len()
        invariant
            types.deep_view() == ws,
            ws == crate_types(drv.deep_view()),
            forall|j: int| 0 <= j < i ==> is_lib_type(#[trigger] ws[j]),
    {
        assert(types.deep_view()[i as int] == ws[i as int]);
        if !text::str_eq(types[i].as_str(), "lib") && !text::str_eq(types[i].as_str(), "rlib") {
            assert(!is_lib_type(ws[i as int]));
            return true;
        }
    }
    types.len() == 0
}

/// Whether the product of a crate, as a target of its own, is a linked library.
pub fn needs_link_output(drv: &Derivation) -> (r: bool)
    ensures
        r == wants_link(drv.deep_view()),
{
    let types = types_of(drv);
    let ghost ws = crate_types(drv.deep_view());
    for i in 0..types.len()
        invariant
            types.deep_view() == ws,
            ws == crate_types(drv.deep_view()),
            forall|j: int| 0 <= j < i ==> !is_link_type(#[trigger] ws[j]),
    {
        assert(types.deep_view()[i as int] == ws[i as int]);
        if text::str_eq(types[i].as_str(), "cdylib") || text::str_eq(
            types[i].as_str(),
            "staticlib",
        ) {
            assert(is_link_type(ws[i as int]));
            return true;
        }
    }
    false
}

/// The file a crate leaves: `lib<name>-<metadata>.<ext>`, with dashes in the name replaced.
pub open spec fn lib_file(d: DrvView, ext: Seq<char>) -> Option<Seq<char>> {
    match (overrides::value_at(d.env, "libName"@), overrides::value_at(d.env, "metadata"@)) {
        (Some(n), Some(m)) => Some(
            "lib"@ + text::replaced(n, "-"@, "_"@) + "-"@ + m + "."@ + ext,
        ),
        _ => None,
    }
}

/// Predicts the name of the file that a crate leaves.
pub fn lib_filename(drv: &Derivation, ext: &str) -> (r: Option<String>)
    ensures
        match r {
            Some(s) => lib_file(drv.deep_view(), ext@) == Some(s@),
            None => lib_file(drv.deep_view(), ext@) is None,
        },
{
    match drv.env.get("libName") {
        None => None,
        Some(n) => match drv.env.get("metadata") {
            None => None,
            Some(m) => {
                let mut s = "lib".to_owned();
                s.append(text::replace(n.as_str(), "-", "_").as_str());
                s.append("-");
                s.append(m.as_str());
                s.append(".");
                s.append(ext);
                Some(s)
            },
        },
    }
}

/// Whether a name ends with one of three endings.
pub open spec fn ends_so(n: Seq<char>, a: Seq<char>, b: Seq<char>, c: Seq<char>) -> bool {
    a.is_suffix_of(n) || b.is_suffix_of(n) || c.is_suffix_of(n)
}

/// Whether one of the names ends with one of three endings.
pub open spec fn some_end_so(
    names: Seq<Seq<char>>,
    a: Seq<char>,
    b: Seq<char>,
    c: Seq<char>,
) -> bool {
    exists|i: int| 0 <= i < names.len() && ends_so(#[trigger] names[i], a, b, c)
}

/// Whether one of the names ends with one of three endings.
pub fn any_ends(names: &Vec<String>, a: &str, b: &str, c: &str) -> (r: bool)
    ensures
        r == some_end_so(names.deep_view(), a@, b@, c@),
{
    for i in 0..names.len()
        invariant
            forall|j: int|
                0 <= j < i ==> !ends_so(#[trigger] names.deep_view()[j], a@, b@, c@),
    {
        assert(names.deep_view()[i as int] == names@[i as int]@);
        let n = names[i].as_str();
        if text::ends_with(n, a) || text::ends_with(n, b) || text::ends_with(n, c) {
            assert(ends_so(names.deep_view()[i as int], a@, b@, c@));
            return true;
        }
    }
    false
}

/// Whether an artifact holds a linked library, given the names in its `lib/lib`.
pub fn artifact_has_link_output(names: &Vec<String>) -> (r: bool)
    ensures
        r == some_end_so(names.deep_view(), ".so"@, ".a"@, ".dylib"@),
{
    any_ends(names, ".so", ".a", ".dylib")
}

/// Whether the cached artifact of a crate will do where the crate is a target of its own, given the
/// names in its `lib/lib`. As a dependency it may have been committed without its linked library.
pub fn cached_artifact_sufficient_as_root(drv: &Derivation, names: &Vec<String>) -> (r: bool)
    ensures
        r == (wants_link(drv.deep_view()) ==> some_end_so(
            names.deep_view(),
            ".so"@,
            ".a"@,
            ".dylib"@,
        )),
{
    !needs_link_output(drv) || artifact_has_link_output(names)
}

/// A name with one of three endings is found wherever it stands, and without one nothing is.
pub proof fn endings_are_found(
    names: Seq<Seq<char>>,
    f: Seq<char>,
    a: Seq<char>,
    b: Seq<char>,
    c: Seq<char>,
)
    ensures
        names.contains(f + a) ==> some_end_so(names, a, b, c),
        names.contains(f + b) ==> some_end_so(names, a, b, c),
        names.contains(f + c) ==> some_end_so(names, a, b, c),
        some_end_so(names, a, b, c) <==> exists|n: Seq<char>| #[trigger]
            names.contains(n) && (a.is_suffix_of(n) || b.is_suffix_of(n) || c.is_suffix_of(n)),
{
    assert((f + a).subrange((f + a).len() - a.len(), (f + a).len() as int) =~= a);
    assert((f + b).subrange((f + b).len() - b.len(), (f + b).len() as int) =~= b);
    assert((f + c).subrange((f + c).len() - c.len(), (f + c).len() as int) =~= c);
    if names.contains(f + a) {
        let i = choose|i: int| 0 <= i < names.len() && names[i] == f + a;
        assert(ends_so(names[i], a, b, c));
    }
    if names.contains(f + b) {
        let i = choose|i: int| 0 <= i < names.len() && names[i] == f + b;
        assert(ends_so(names[i], a, b, c));
    }
    if names.contains(f + c) {
        let i = choose|i: int| 0 <= i < names.len() && names[i] == f + c;
        assert(ends_so(names[i], a, b, c));
    }
    if some_end_so(names, a, b, c) {
        let i = choose|i: int| 0 <= i < names.len() && ends_so(#[trigger] names[i], a, b, c);
        assert(names.contains(names[i]));
    }
    if exists|n: Seq<char>| #[trigger]
        names.contains(n) && (a.is_suffix_of(n) || b.is_suffix_of(n) || c.is_suffix_of(n)) {
        let n = choose|n: Seq<char>| #[trigger]
            names.contains(n) && (a.is_suffix_of(n) || b.is_suffix_of(n) || c.is_suffix_of(n));
        let i = choose|i: int| 0 <= i < names.len() && names[i] == n;
        assert(ends_so(names[i], a, b, c));
    }
}

/// Dependents of a crate can start early exactly if one of its types is `lib` or `rlib` and it
/// names no native library to link.
pub proof fn libraries_go_early(d: DrvView, t: Seq<char>)
    requires
        d.env.contains_key("crateType"@),
        d.env["crateType"@] == t,
    ensures
        pipelineable(d) <==> (text::words(t).contains("lib"@) || text::words(t).contains("rlib"@))
            && (d.env.contains_key("crateLinks"@) ==> d.env["crateLinks"@].len() == 0),
        links(d) <==> text::words(t).len() == 0 || exists|w: Seq<char>| #[trigger]
            text::words(t).contains(w) && w != "lib"@ && w != "rlib"@,
        wants_link(d) <==> text::words(t).contains("cdylib"@) || text::words(t).contains(
            "staticlib"@,
        ),
{
    let ws = text::words(t);
    assert(crate_types(d) == ws);
    if ws.contains("lib"@) {
        let i = choose|i: int| 0 <= i < ws.len() && ws[i] == "lib"@;
        assert(is_lib_type(crate_types(d)[i]));
    }
    if ws.contains("rlib"@) {
        let i = choose|i: int| 0 <= i < ws.len() && ws[i] == "rlib"@;
        assert(is_lib_type(crate_types(d)[i]));
    }
    if exists|i: int| 0 <= i < crate_types(d).len() && is_lib_type(#[trigger] crate_types(d)[i]) {
        let i = choose|i: int| 0 <= i < ws.len() && is_lib_type(#[trigger] crate_types(d)[i]);
        assert(ws.contains(ws[i]));
    }
    if exists|i: int| 0 <= i < crate_types(d).len() && !is_lib_type(#[trigger] crate_types(d)[i]) {
        let i = choose|i: int| 0 <= i < ws.len() && !is_lib_type(#[trigger] crate_types(d)[i]);
        assert(ws.contains(ws[i]));
    }
    if exists|w: Seq<char>| #[trigger] ws.contains(w) && w != "lib"@ && w != "rlib"@ {
        let w = choose|w: Seq<char>| #[trigger] ws.contains(w) && w != "lib"@ && w != "rlib"@;
        let i = choose|i: int| 0 <= i < ws.len() && ws[i] == w;
        assert(!is_lib_type(crate_types(d)[i]));
    }
    if ws.contains("cdylib"@) {
        let i = choose|i: int| 0 <= i < ws.len() && ws[i] == "cdylib"@;
        assert(is_link_type(crate_types(d)[i]));
    }
    if ws.contains("staticlib"@) {
        let i = choose|i: int| 0 <= i < ws.len() && ws[i] == "staticlib"@;
        assert(is_link_type(crate_types(d)[i]));
    }
    if wants_link(d) {
        let i = choose|i: int| 0 <= i < ws.len() && is_link_type(#[trigger] crate_types(d)[i]);
        assert(ws.contains(ws[i]));
    }
}

/// A crate without a declared type is a program: it reads its dependencies in full, and nobody
/// starts on it early.
pub proof fn crates_without_type_link(d: DrvView)
    requires
        !d.env.contains_key("crateType"@),
    ensures
        links(d),
        !pipelineable(d),
        !wants_link(d),
{
}

/// The name of the file that a crate leaves ends in the metadata and the extension, and it is known
/// exactly where both its name and its metadata are.
pub proof fn files_are_named_by_metadata(d: DrvView, ext: Seq<char>)
    ensures
        lib_file(d, ext) is Some <==> d.env.contains_key("libName"@) && d.env.contains_key(
            "metadata"@,
        ),
        lib_file(d, ext) matches Some(f) ==> f == "lib"@ + text::replaced(
            d.env["libName"@],
            "-"@,
            "_"@,
        ) + ("-"@ + d.env["metadata"@] + "."@ + ext),
{
    if let Some(f) = lib_file(d, ext) {
        assert(f =~= "lib"@ + text::replaced(d.env["libName"@], "-"@, "_"@) + ("-"@
            + d.env["metadata"@] + "."@ + ext));
    }
}

/// A root that links is not done with an artifact that holds only metadata: it needs a library that a
/// linker reads. A root that does not link is done with any.
pub proof fn linking_roots_need_a_library(
    drv: &Derivation,
    names: &Vec<String>,
    h: bool,
    r: bool,
    i: int,
)
    requires
        call_ensures(artifact_has_link_output, (names,), h),
        call_ensures(cached_artifact_sufficient_as_root, (drv, names), r),
    ensures
        names@.len() == 0 ==> !h,
        0 <= i < names@.len() && (".so"@.is_suffix_of(names.deep_view()[i]) || ".a"@.is_suffix_of(
            names.deep_view()[i],
        ) || ".dylib"@.is_suffix_of(names.deep_view()[i])) ==> h,
        h ==> exists|j: int|
            0 <= j < names@.len() && (".so"@.is_suffix_of(#[trigger] names.deep_view()[j])
                || ".a"@.is_suffix_of(names.deep_view()[j]) || ".dylib"@.is_suffix_of(
                names.deep_view()[j],
            )),
        !wants_link(drv.deep_view()) ==> r,
        wants_link(drv.deep_view()) ==> r == h,
{
    if 0 <= i < names@.len() && (".so"@.is_suffix_of(names.deep_view()[i]) || ".a"@.is_suffix_of(
        names.deep_view()[i],
    ) || ".dylib"@.is_suffix_of(names.deep_view()[i])) {
        assert(ends_so(names.deep_view()[i], ".so"@, ".a"@, ".dylib"@));
    }
}

} // verus!
