//! What the build of a Rust crate needs beyond `$stdenv/setup`: the flag for incremental
//! compilation, and a shim for `rustc` that comes back to this program.
use crate::backend::{BuildContext, ContextView, Hooks, HooksView, NamesView, OutputNames};
use crate::cache;
use crate::executor;
use crate::executor::TextFile;
use crate::path;
use crate::rust_pipeline;
use crate::strmap::StrMap;
use crate::text;
use vstd::prelude::*;

verus! {

/// The line that turns on incremental compilation in a directory.
pub open spec fn incremental_line(inc: Seq<char>) -> Seq<char> {
    "export EXTRA_RUSTC_FLAGS=\"-C incremental="@ + inc + " ${EXTRA_RUSTC_FLAGS:-}\"\n"@
}

/// Writes the line that turns on incremental compilation in a directory.
pub fn incremental_text(inc: &str) -> (r: String)
    ensures
        r@ == incremental_line(inc@),
{
    let mut s = "export EXTRA_RUSTC_FLAGS=\"-C incremental=".to_owned();
    s.append(inc);
    s.append(" ${EXTRA_RUSTC_FLAGS:-}\"\n");
    s
}

/// The lines that find the compiler and flatten the arrays that the shim reads.
pub const FLATTEN: &'static str = "export BOB_REAL_RUSTC=$(command -v rustc)
export BOB_COMPLETE_DEPS=\"${completeDeps[*]-}\"
export BOB_COMPLETE_BUILD_DEPS=\"${completeBuildDeps[*]-}\"
";

/// The directory of the shim of a unit.
pub open spec fn shim_dir(tmp: Seq<char>) -> Seq<char> {
    path::joined(tmp, "rustc-wrap"@)
}

/// The lines that configure the shim and put it in front of the compiler.
pub open spec fn shim_lines(tmp: Seq<char>, expected: Seq<char>, skip_link: bool) -> Seq<char> {
    FLATTEN@ + executor::export_line("BOB_WRAP_RMETA_DIR"@, path::joined(tmp, "rmeta"@))
        + executor::export_line("BOB_EXPECTED_RMETA"@, expected) + executor::export_line(
        "BOB_SKIP_LINK_PASS"@,
        if skip_link {
            "1"@
        } else {
            ""@
        },
    ) + "export PATH='"@ + shim_dir(tmp) + "':$PATH\n"@
}

/// Writes the lines that configure the shim and put it in front of the compiler.
pub fn shim_config(tmp: &str, expected: &str, skip_link: bool) -> (r: String)
    ensures
        r@ == shim_lines(tmp@, expected@, skip_link),
{
    let mut s = FLATTEN.to_owned();
    executor::push_export(&mut s, "BOB_WRAP_RMETA_DIR", path::join(tmp, "rmeta").as_str());
    executor::push_export(&mut s, "BOB_EXPECTED_RMETA", expected);
    executor::push_export(&mut s, "BOB_SKIP_LINK_PASS", if skip_link { "1" } else { "" });
    s.append("export PATH='");
    s.append(path::join(tmp, "rustc-wrap").as_str());
    s.append("':$PATH\n");
    s
}

/// The text of the shim.
pub open spec fn shim_text(exe: Seq<char>) -> Seq<char> {
    "#!/bin/sh\nexec '"@ + exe + "' __rustc-wrap \"$@\"\n"@
}

/// The shim of a unit: its path and its text.
pub open spec fn shim_of(tmp: Seq<char>, exe: Seq<char>) -> (Seq<char>, Seq<char>) {
    (path::joined(shim_dir(tmp), "rustc"@), shim_text(exe))
}

/// Gives the shim of a unit.
pub fn shim(tmp: &str, exe: &str) -> (r: TextFile)
    ensures
        r.deep_view() == shim_of(tmp@, exe@),
{
    let mut text = "#!/bin/sh\nexec '".to_owned();
    text.append(exe);
    text.append("' __rustc-wrap \"$@\"\n");
    TextFile { path: path::join(path::join(tmp, "rustc-wrap").as_str(), "rustc"), text }
}

/// The directory that dependents walk before the build has filled it.
pub open spec fn early_lib(tmp: Seq<char>) -> Seq<char> {
    path::joined(path::joined(tmp, "lib"@), "lib"@)
}

/// What is added to the build of a crate. A crate that is no target skips the link pass, since
/// dependents read only its library.
pub open spec fn added(ctx: ContextView) -> HooksView {
    let inc = cache::incremental_place(ctx.root, ctx.drv_path);
    HooksView {
        dirs: seq![early_lib(ctx.tmp), inc, shim_dir(ctx.tmp)],
        shims: seq![shim_of(ctx.tmp, ctx.self_exe)],
        lines: incremental_line(inc) + shim_lines(
            ctx.tmp,
            match rust_pipeline::lib_file(ctx.drv, "rmeta"@) {
                Some(f) => f,
                None => Seq::empty(),
            },
            !ctx.is_root,
        ),
    }
}

/// Gives what is added to the build of a crate.
pub fn build_script_hooks(ctx: &BuildContext<'_>) -> (r: Hooks)
    ensures
        r.deep_view() == added(ctx.deep_view()),
{
    let inc = ctx.cache.incremental_dir(ctx.drv_path);
    let expected = match rust_pipeline::lib_filename(ctx.drv, "rmeta") {
        Some(f) => f,
        None => String::new(),
    };
    let mut lines = incremental_text(inc.as_str());
    lines.append(shim_config(ctx.tmp, expected.as_str(), !ctx.is_root).as_str());
    let mut dirs: Vec<String> = Vec::new();
    dirs.push(path::join(path::join(ctx.tmp, "lib").as_str(), "lib"));
    dirs.push(inc);
    dirs.push(path::join(ctx.tmp, "rustc-wrap"));
    let mut shims: Vec<TextFile> = Vec::new();
    shims.push(shim(ctx.tmp, ctx.self_exe));
    let r = Hooks { dirs, shims, lines };
    proof {
        assert(r.deep_view().dirs =~= added(ctx.deep_view()).dirs);
        assert(r.deep_view().shims =~= added(ctx.deep_view()).shims);
    }
    r
}

/// Whether a build left something usable: a library in the output `lib`, or anything in the `bin`
/// of the output `out`.
pub open spec fn populated(names: Map<Seq<char>, NamesView>) -> bool {
    ||| names.contains_key("lib"@) && rust_pipeline::some_end_so(
        names["lib"@].lib,
        ".rlib"@,
        ".so"@,
        ".a"@,
    )
    ||| names.contains_key("out"@) && names["out"@].bin.len() > 0
}

/// Whether a build left something usable.
pub fn output_populated(names: &StrMap<OutputNames>) -> (r: bool)
    ensures
        r == populated(names@),
        r <==> (names@.contains_key("lib"@) && exists|i: int|
            0 <= i < names@["lib"@].lib.len() && (".rlib"@.is_suffix_of(
                #[trigger] names@["lib"@].lib[i],
            ) || ".so"@.is_suffix_of(names@["lib"@].lib[i]) || ".a"@.is_suffix_of(
                names@["lib"@].lib[i],
            ))) || (names@.contains_key("out"@) && names@["out"@].bin.len() > 0),
{
    let lib_populated = match names.get("lib") {
        Some(o) => rust_pipeline::any_ends(&o.lib, ".rlib", ".so", ".a"),
        None => false,
    };
    let bin_populated = match names.get("out") {
        Some(o) => o.bin.len() > 0,
        None => false,
    };
    lib_populated || bin_populated
}

/// A build that left a library in the `lib` of its output `lib`, be it static, shared or Rust's own,
/// left something usable; so did one that left anything in the `bin` of its output `out`. Without
/// either it did not.
pub proof fn libraries_and_programs_are_usable(names: Map<Seq<char>, NamesView>, f: Seq<char>)
    ensures
        names.contains_key("lib"@) && names["lib"@].lib.contains(f + ".rlib"@) ==> populated(names),
        names.contains_key("lib"@) && names["lib"@].lib.contains(f + ".so"@) ==> populated(names),
        names.contains_key("lib"@) && names["lib"@].lib.contains(f + ".a"@) ==> populated(names),
        names.contains_key("out"@) && names["out"@].bin.contains(f) ==> populated(names),
        populated(names) ==> (names.contains_key("out"@) && names["out"@].bin.len() > 0) || (
        names.contains_key("lib"@) && exists|n: Seq<char>| #[trigger]
            names["lib"@].lib.contains(n) && (".rlib"@.is_suffix_of(n) || ".so"@.is_suffix_of(n)
                || ".a"@.is_suffix_of(n))),
{
    let l = names["lib"@].lib;
    rust_pipeline::endings_are_found(l, f, ".rlib"@, ".so"@, ".a"@);
    if names.contains_key("lib"@) && rust_pipeline::some_end_so(l, ".rlib"@, ".so"@, ".a"@) {
        let i = choose|i: int|
            0 <= i < l.len() && rust_pipeline::ends_so(#[trigger] l[i], ".rlib"@, ".so"@, ".a"@);
        assert(l.contains(l[i]));
    }
}

proof fn line_within(a: Seq<char>, p: Seq<char>, b: Seq<char>)
    ensures
        text::occurs(a + p + b, p),
{
    let s = a + p + b;
    assert(s.subrange(a.len() as int, (a.len() + p.len()) as int) =~= p);
    assert(text::has_at(s, a.len() as int, p));
}

/// The shim is told where early metadata goes, which metadata is waited for, and whether the link
/// pass is skipped, and it stands in front of the compiler.
pub proof fn shims_are_told_what_to_do(tmp: Seq<char>, f: Seq<char>, skip: bool)
    ensures
        text::occurs(
            shim_lines(tmp, f, skip),
            "export BOB_WRAP_RMETA_DIR='"@ + path::joined(tmp, "rmeta"@) + "'\n"@,
        ),
        text::occurs(shim_lines(tmp, f, skip), "export BOB_EXPECTED_RMETA='"@ + f + "'\n"@),
        !skip ==> text::occurs(shim_lines(tmp, f, skip), "export BOB_SKIP_LINK_PASS=''\n"@),
        skip ==> text::occurs(shim_lines(tmp, f, skip), "export BOB_SKIP_LINK_PASS='1'\n"@),
        ("export PATH='"@ + path::joined(tmp, "rustc-wrap"@) + "':$PATH\n"@).is_suffix_of(
            shim_lines(tmp, f, skip),
        ),
{
    let s = shim_lines(tmp, f, skip);
    let d = path::joined(tmp, "rmeta"@);
    let l1 = "export BOB_WRAP_RMETA_DIR='"@ + d + "'\n"@;
    let l2 = "export BOB_EXPECTED_RMETA='"@ + f + "'\n"@;
    let l3 = if skip {
        "export BOB_SKIP_LINK_PASS='1'\n"@
    } else {
        "export BOB_SKIP_LINK_PASS=''\n"@
    };
    let l4 = "export PATH='"@ + path::joined(tmp, "rustc-wrap"@) + "':$PATH\n"@;
    exported_lines(d, f, skip);
    let x = FLATTEN@;
    assert(s =~= x + l1 + (l2 + l3 + l4));
    line_within(x, l1, l2 + l3 + l4);
    assert(s =~= (x + l1) + l2 + (l3 + l4));
    line_within(x + l1, l2, l3 + l4);
    assert(s =~= (x + l1 + l2) + l3 + l4);
    line_within(x + l1 + l2, l3, l4);
    assert(s.subrange(s.len() - l4.len(), s.len() as int) =~= l4);
}

proof fn exported_lines(d: Seq<char>, f: Seq<char>, skip: bool)
    ensures
        executor::export_line("BOB_WRAP_RMETA_DIR"@, d) == "export BOB_WRAP_RMETA_DIR='"@ + d
            + "'\n"@,
        executor::export_line("BOB_EXPECTED_RMETA"@, f) == "export BOB_EXPECTED_RMETA='"@ + f
            + "'\n"@,
        executor::export_line(
            "BOB_SKIP_LINK_PASS"@,
            if skip {
                "1"@
            } else {
                ""@
            },
        ) == if skip {
            "export BOB_SKIP_LINK_PASS='1'\n"@
        } else {
            "export BOB_SKIP_LINK_PASS=''\n"@
        },
{
    reveal_strlit("export ");
    reveal_strlit("='");
    reveal_strlit("'\n");
    reveal_strlit("BOB_WRAP_RMETA_DIR");
    reveal_strlit("BOB_EXPECTED_RMETA");
    reveal_strlit("BOB_SKIP_LINK_PASS");
    reveal_strlit("export BOB_WRAP_RMETA_DIR='");
    reveal_strlit("export BOB_EXPECTED_RMETA='");
    reveal_strlit("export BOB_SKIP_LINK_PASS=''\n");
    reveal_strlit("export BOB_SKIP_LINK_PASS='1'\n");
    reveal_strlit("1");
    reveal_strlit("");
    assert(executor::export_line("BOB_WRAP_RMETA_DIR"@, d) =~= "export BOB_WRAP_RMETA_DIR='"@ + d
        + "'\n"@);
    assert(executor::export_line("BOB_EXPECTED_RMETA"@, f) =~= "export BOB_EXPECTED_RMETA='"@ + f
        + "'\n"@);
    assert(executor::export_line("BOB_SKIP_LINK_PASS"@, "1"@)
        =~= "export BOB_SKIP_LINK_PASS='1'\n"@);
    assert(executor::export_line("BOB_SKIP_LINK_PASS"@, ""@)
        =~= "export BOB_SKIP_LINK_PASS=''\n"@);
}

/// The compiler is told to keep what it keeps in the given directory, beside any flags that were
/// there.
pub proof fn incremental_flags_are_added(inc: Seq<char>)
    ensures
        incremental_line(inc) == "export EXTRA_RUSTC_FLAGS=\""@ + "-C incremental="@ + inc
            + " ${EXTRA_RUSTC_FLAGS:-}\"\n"@,
{
    reveal_strlit("export EXTRA_RUSTC_FLAGS=\"-C incremental=");
    reveal_strlit("export EXTRA_RUSTC_FLAGS=\"");
    reveal_strlit("-C incremental=");
    assert("export EXTRA_RUSTC_FLAGS=\"-C incremental="@ =~= "export EXTRA_RUSTC_FLAGS=\""@
        + "-C incremental="@);
}

/// A crate that is no target skips the link pass, and a target does not. The directory that the
/// compiler keeps goes by the derivation, the shim by the place of the build, and the directory
/// that dependents walk early is there from the start.
pub proof fn targets_are_linked(ctx: ContextView, f: Seq<char>)
    requires
        rust_pipeline::lib_file(ctx.drv, "rmeta"@) == Some(f),
    ensures
        added(ctx).lines == incremental_line(
            path::joined(path::joined(ctx.root, "incremental"@), cache::drv_key(ctx.drv_path)),
        ) + shim_lines(ctx.tmp, f, !ctx.is_root),
        added(ctx).dirs.contains(path::joined(path::joined(ctx.tmp, "lib"@), "lib"@)),
        added(ctx).dirs.contains(
            path::joined(path::joined(ctx.root, "incremental"@), cache::drv_key(ctx.drv_path)),
        ),
        added(ctx).dirs.contains(path::joined(ctx.tmp, "rustc-wrap"@)),
        added(ctx).shims == seq![
            (
                path::joined(path::joined(ctx.tmp, "rustc-wrap"@), "rustc"@),
                "#!/bin/sh\nexec '"@ + ctx.self_exe + "' __rustc-wrap \"$@\"\n"@,
            ),
        ],
{
    let d = added(ctx).dirs;
    assert(d[0] == path::joined(path::joined(ctx.tmp, "lib"@), "lib"@));
    assert(d[1] == path::joined(
        path::joined(ctx.root, "incremental"@),
        cache::drv_key(ctx.drv_path),
    ));
    assert(d[2] == path::joined(ctx.tmp, "rustc-wrap"@));
}

/// The compiler that the shim stands in front of is found before the shim is, and the arrays of
/// dependencies become words.
pub proof fn the_compiler_is_found_first()
    ensures
        text::occurs(FLATTEN@, "export BOB_REAL_RUSTC=$(command -v rustc)\n"@),
        text::occurs(FLATTEN@, "export BOB_COMPLETE_DEPS=\"${completeDeps[*]-}\"\n"@),
        text::occurs(FLATTEN@, "export BOB_COMPLETE_BUILD_DEPS=\"${completeBuildDeps[*]-}\"\n"@),
{
    reveal_strlit("export BOB_REAL_RUSTC=$(command -v rustc)
export BOB_COMPLETE_DEPS=\"${completeDeps[*]-}\"
export BOB_COMPLETE_BUILD_DEPS=\"${completeBuildDeps[*]-}\"
");
    reveal_strlit("export BOB_REAL_RUSTC=$(command -v rustc)\n");
    assert(FLATTEN@.subrange(0, 42) =~= "export BOB_REAL_RUSTC=$(command -v rustc)\n"@);
    assert(text::has_at(FLATTEN@, 0, "export BOB_REAL_RUSTC=$(command -v rustc)\n"@));
    reveal_strlit("export BOB_COMPLETE_DEPS=\"${completeDeps[*]-}\"\n");
    assert(FLATTEN@.subrange(42, 89) =~= "export BOB_COMPLETE_DEPS=\"${completeDeps[*]-}\"\n"@);
    assert(text::has_at(FLATTEN@, 42, "export BOB_COMPLETE_DEPS=\"${completeDeps[*]-}\"\n"@));
    reveal_strlit("export BOB_COMPLETE_BUILD_DEPS=\"${completeBuildDeps[*]-}\"\n");
    assert(FLATTEN@.subrange(89, 147) =~= "export BOB_COMPLETE_BUILD_DEPS=\"${completeBuildDeps[*]-}\"\n"@);
    assert(text::has_at(FLATTEN@, 89, "export BOB_COMPLETE_BUILD_DEPS=\"${completeBuildDeps[*]-}\"\n"@));
}

/// The shim lies in the directory that stands in front of the compiler, under the name of the
/// compiler, and hands all that it is given on to the program, behind the command for it.
pub proof fn shims_hand_on_their_arguments(tmp: Seq<char>, exe: Seq<char>)
    ensures
        shim_of(tmp, exe).0 == path::joined(path::joined(tmp, "rustc-wrap"@), "rustc"@),
        "#!/bin/sh\n"@.is_prefix_of(shim_of(tmp, exe).1),
        text::occurs(shim_of(tmp, exe).1, "exec '"@ + exe + "' __rustc-wrap \"$@\"\n"@),
{
    reveal_strlit("#!/bin/sh\n");
    reveal_strlit("#!/bin/sh\nexec '");
    reveal_strlit("exec '");
    let s = shim_text(exe);
    let l = "exec '"@ + exe + "' __rustc-wrap \"$@\"\n"@;
    assert(s.subrange(0, 10) =~= "#!/bin/sh\n"@);
    assert("#!/bin/sh\nexec '"@ =~= "#!/bin/sh\n"@ + "exec '"@);
    assert(s =~= "#!/bin/sh\n"@ + l + Seq::<char>::empty());
    line_within("#!/bin/sh\n"@, l, Seq::empty());
}

/// Early libraries lie in `lib` of the output `lib`.
pub proof fn early_libraries_lie_in_lib(tmp: Seq<char>)
    requires
        tmp.len() > 0,
        tmp.last() != '/',
    ensures
        early_lib(tmp) == tmp + seq!['/', 'l', 'i', 'b', '/', 'l', 'i', 'b'],
{
    reveal_strlit("lib");
    path::joining_goes_below(tmp, "lib"@);
    path::joining_goes_below(path::joined(tmp, "lib"@), "lib"@);
    assert(path::joined(tmp, "lib"@) =~= tmp + seq!['/', 'l', 'i', 'b']);
    assert(early_lib(tmp) =~= tmp + seq!['/', 'l', 'i', 'b', '/', 'l', 'i', 'b']);
}

} // verus!
