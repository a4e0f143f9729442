//! What the build of a C or C++ unit needs beyond `$stdenv/setup`: a build directory that stays,
//! and a configure step that works on the source in place and on a directory already configured.
use crate::backend::{BuildContext, ContextView, Hooks, HooksView, NamesView, OutputNames};
use crate::cache;
use crate::digest;
use crate::drv::{Derivation, DrvView};
use crate::executor;
use crate::executor::TextFile;
use crate::path;
use crate::strmap;
use crate::strmap::StrMap;
use crate::text;
use vstd::prelude::*;

verus! {

/// The lines of the build script for a unit whose build directory is given. The source is used
/// where it lies: it is neither unpacked nor patched, so that the paths which the build directory
/// holds stay valid. A build directory that meson has configured before is configured again.
pub open spec fn build_lines(inc: Seq<char>) -> Seq<char> {
    "dontUnpack=1\ndontPatch=1\n"@ + executor::export_line("cmakeBuildDir"@, inc)
        + "export cmakeDir=\"$src\"\n"@ + executor::export_line("mesonBuildDir"@, inc)
        + "preConfigureHooks+=(_bobCcPreConfigure)\n_bobCcPreConfigure() {\n  cd \"$src\"\n  if [[ -e '"@
        + inc + "/meson-private' ]]; then\n    mesonFlags+=(--reconfigure)\n  fi\n}\n"@
        + "chmod -R u+w '"@ + inc + "' 2>/dev/null || true\n"@
}

fn build_text(inc: &str) -> (r: String)
    ensures
        r@ == build_lines(inc@),
{
    let mut s = "dontUnpack=1\ndontPatch=1\n".to_owned();
    executor::push_export(&mut s, "cmakeBuildDir", inc);
    s.append("export cmakeDir=\"$src\"\n");
    executor::push_export(&mut s, "mesonBuildDir", inc);
    s.append(
        "preConfigureHooks+=(_bobCcPreConfigure)\n_bobCcPreConfigure() {\n  cd \"$src\"\n  if [[ -e '",
    );
    s.append(inc);
    s.append("/meson-private' ]]; then\n    mesonFlags+=(--reconfigure)\n  fi\n}\n");
    s.append("chmod -R u+w '");
    s.append(inc);
    s.append("' 2>/dev/null || true\n");
    s
}

/// What is added to the build of a unit.
pub open spec fn added(ctx: ContextView) -> HooksView {
    let inc = cache::incremental_place(ctx.root, ctx.drv_path);
    HooksView { dirs: seq![inc], shims: Seq::empty(), lines: build_lines(inc) }
}

/// Gives what is added to the build of a unit.
pub fn build_script_hooks(ctx: &BuildContext<'_>) -> (r: Hooks)
    ensures
        r.deep_view() == added(ctx.deep_view()),
{
    let inc = ctx.cache.incremental_dir(ctx.drv_path);
    let lines = build_text(inc.as_str());
    let mut dirs: Vec<String> = Vec::new();
    dirs.push(inc);
    let shims: Vec<TextFile> = Vec::new();
    let r = Hooks { dirs, shims, lines };
    proof {
        assert(r.deep_view().dirs =~= added(ctx.deep_view()).dirs);
        assert(r.deep_view().shims =~= added(ctx.deep_view()).shims);
    }
    r
}

/// What is added to a build depends on the cache and the derivation's path alone, and so not on the
/// temporary directory: an edit of the source configures and compiles nothing anew that it does not
/// touch.
pub proof fn hooks_are_keyed_by_derivation(a: ContextView, b: ContextView)
    requires
        a.root == b.root,
        a.drv_path == b.drv_path,
    ensures
        added(a) == added(b),
{
}

proof fn occurs_between(a: Seq<char>, p: Seq<char>, b: Seq<char>)
    ensures
        text::occurs(a + p + b, p),
{
    let s = a + p + b;
    assert(s.subrange(a.len() as int, (a.len() + p.len()) as int) =~= p);
    assert(text::has_at(s, a.len() as int, p));
}

/// The lines leave the source where it lies and name the build directory.
pub proof fn hooks_build_in_place(inc: Seq<char>)
    ensures
        text::occurs(build_lines(inc), "dontUnpack=1"@),
        text::occurs(build_lines(inc), "cmakeDir=\"$src\""@),
        text::occurs(build_lines(inc), executor::export_line("cmakeBuildDir"@, inc)),
        text::occurs(build_lines(inc), executor::export_line("mesonBuildDir"@, inc)),
        text::occurs(build_lines(inc), inc),
{
    let s = build_lines(inc);
    let none = Seq::<char>::empty();
    let l0 = "dontUnpack=1\ndontPatch=1\n"@;
    let l1 = executor::export_line("cmakeBuildDir"@, inc);
    let l2 = "export cmakeDir=\"$src\"\n"@;
    let l3 = executor::export_line("mesonBuildDir"@, inc);
    let l4 =
        "preConfigureHooks+=(_bobCcPreConfigure)\n_bobCcPreConfigure() {\n  cd \"$src\"\n  if [[ -e '"@;
    let l5 = "/meson-private' ]]; then\n    mesonFlags+=(--reconfigure)\n  fi\n}\n"@;
    let l6 = "chmod -R u+w '"@;
    let l7 = "' 2>/dev/null || true\n"@;
    reveal_strlit("dontUnpack=1\ndontPatch=1\n");
    reveal_strlit("dontUnpack=1");
    reveal_strlit("export cmakeDir=\"$src\"\n");
    reveal_strlit("cmakeDir=\"$src\"");
    let w0 = "dontUnpack=1"@;
    assert(l0 =~= none + w0 + l0.skip(12));
    assert(s =~= none + w0 + (l0.skip(12) + (l1 + l2 + l3 + l4 + inc + l5 + l6 + inc + l7)));
    occurs_between(none, w0, l0.skip(12) + (l1 + l2 + l3 + l4 + inc + l5 + l6 + inc + l7));
    let w2 = "cmakeDir=\"$src\""@;
    assert(l2 =~= l2.take(7) + w2 + l2.skip(22));
    assert(s =~= (l0 + l1 + l2.take(7)) + w2 + (l2.skip(22) + (l3 + l4 + inc + l5 + l6 + inc
        + l7)));
    occurs_between(l0 + l1 + l2.take(7), w2, l2.skip(22) + (l3 + l4 + inc + l5 + l6 + inc + l7));
    assert(s =~= l0 + l1 + (l2 + l3 + l4 + inc + l5 + l6 + inc + l7));
    occurs_between(l0, l1, l2 + l3 + l4 + inc + l5 + l6 + inc + l7);
    assert(s =~= (l0 + l1 + l2) + l3 + (l4 + inc + l5 + l6 + inc + l7));
    occurs_between(l0 + l1 + l2, l3, l4 + inc + l5 + l6 + inc + l7);
    assert(s =~= (l0 + l1 + l2 + l3 + l4) + inc + (l5 + l6 + inc + l7));
    occurs_between(l0 + l1 + l2 + l3 + l4, inc, l5 + l6 + inc + l7);
}

/// A word stands across the seam of two texts.
pub open spec fn crosses(a: Seq<char>, b: Seq<char>, w: Seq<char>) -> bool {
    exists|k: int|
        0 < k < w.len() && (#[trigger] w.take(k)).is_suffix_of(a) && w.skip(k).is_prefix_of(b)
}

/// A word in two texts stands in one of them or across their seam.
proof fn on_a_side_or_across(a: Seq<char>, b: Seq<char>, w: Seq<char>)
    requires
        text::occurs(a + b, w),
    ensures
        text::occurs(a, w) || text::occurs(b, w) || crosses(a, b, w),
{
    let s = a + b;
    let i = choose|i: int| text::has_at(s, i, w);
    let n = a.len() as int;
    assert(s.subrange(i, i + w.len()) == w);
    assert(forall|k: int| 0 <= k < w.len() ==> s[i + k] == #[trigger] w[k]);
    if i + w.len() <= n {
        assert(a.subrange(i, i + w.len()) =~= w);
        assert(text::has_at(a, i, w));
    } else if i >= n {
        assert(b.subrange(i - n, i - n + w.len()) =~= w);
        assert(text::has_at(b, i - n, w));
    } else {
        let k = n - i;
        assert(a.subrange(i, n) =~= w.take(k));
        assert(b.subrange(0, w.len() - k) =~= w.skip(k)) by {
            assert forall|j: int| 0 <= j < w.len() - k implies b[j] == #[trigger] w.skip(k)[j] by {
                assert(s[i + (k + j)] == w[k + j]);
            }
        }
        assert(w.take(k).is_suffix_of(a));
    }
}

/// A word across a seam holds the characters on both sides of it.
proof fn seam_is_in_the_word(a: Seq<char>, b: Seq<char>, w: Seq<char>)
    requires
        crosses(a, b, w),
    ensures
        a.len() > 0,
        b.len() > 0,
        w.contains(a.last()),
        w.contains(b[0]),
{
    let k = choose|k: int|
        0 < k < w.len() && (#[trigger] w.take(k)).is_suffix_of(a) && w.skip(k).is_prefix_of(b);
    let t = w.take(k);
    assert(a.subrange(a.len() - t.len(), a.len() as int)[k - 1] == t[k - 1]);
    assert(w[k - 1] == a.last());
    assert(w.skip(k)[0] == b[0]);
    assert(w[k] == b[0]);
}

/// A word of hexadecimal digits does not cross a character that is none.
proof fn word_on_a_side(a: Seq<char>, b: Seq<char>, w: Seq<char>)
    requires
        digest::hex_text(w),
        text::occurs(a + b, w),
        a.len() > 0,
        b.len() > 0,
        !digest::hex_digit(a.last()) || !digest::hex_digit(b[0]),
    ensures
        text::occurs(a, w) || text::occurs(b, w),
{
    on_a_side_or_across(a, b, w);
    if crosses(a, b, w) {
        seam_is_in_the_word(a, b, w);
    }
}

/// A key is not in a piece that is shorter.
proof fn behind_piece(a: Seq<char>, b: Seq<char>, w: Seq<char>)
    requires
        digest::hex_text(w),
        0 < a.len() < w.len(),
        b.len() > 0,
        !digest::hex_digit(a.last()),
        text::occurs(a + b, w),
    ensures
        text::occurs(b, w),
{
    word_on_a_side(a, b, w);
}

/// A key stands in the lines only where it stands in the build directory's path, so the key under
/// which a unit is committed moves nothing that the compiler sees.
pub proof fn hooks_hold_no_other_key(inc: Seq<char>, key: Seq<char>)
    requires
        inc.len() > 0,
        key.len() == 64,
        digest::hex_text(key),
        text::occurs(build_lines(inc), key),
    ensures
        text::occurs(inc, key),
{
    reveal_strlit("dontUnpack=1\ndontPatch=1\n");
    reveal_strlit("export ");
    reveal_strlit("='");
    reveal_strlit("'\n");
    reveal_strlit("cmakeBuildDir");
    reveal_strlit("mesonBuildDir");
    reveal_strlit("export cmakeDir=\"$src\"\n");
    reveal_strlit(
        "preConfigureHooks+=(_bobCcPreConfigure)\n_bobCcPreConfigure() {\n  cd \"$src\"\n  if [[ -e '",
    );
    reveal_strlit("/meson-private' ]]; then\n    mesonFlags+=(--reconfigure)\n  fi\n}\n");
    reveal_strlit("chmod -R u+w '");
    reveal_strlit("' 2>/dev/null || true\n");
    let p0 = "dontUnpack=1\ndontPatch=1\n"@ + "export "@ + "cmakeBuildDir"@ + "='"@;
    let p1 = "'\n"@ + "export cmakeDir=\"$src\"\n"@ + "export "@ + "mesonBuildDir"@ + "='"@;
    let p2 = "'\n"@
        + "preConfigureHooks+=(_bobCcPreConfigure)\n_bobCcPreConfigure() {\n  cd \"$src\"\n  if [[ -e '"@;
    let p3 = "/meson-private' ]]; then\n    mesonFlags+=(--reconfigure)\n  fi\n}\n"@
        + "chmod -R u+w '"@;
    let p4 = "' 2>/dev/null || true\n"@;
    let q3 = inc + p4;
    let q2 = inc + (p3 + q3);
    let q1 = inc + (p2 + q2);
    let q0 = inc + (p1 + q1);
    assert(build_lines(inc) =~= p0 + q0);
    behind_piece(p0, q0, key);
    word_on_a_side(inc, p1 + q1, key);
    if !text::occurs(inc, key) {
        behind_piece(p1, q1, key);
        word_on_a_side(inc, p2 + q2, key);
        assert(p2 + q2 =~= p2.take(42) + (p2.skip(42) + q2));
        behind_piece(p2.take(42), p2.skip(42) + q2, key);
        behind_piece(p2.skip(42), q2, key);
        word_on_a_side(inc, p3 + q3, key);
        assert(p3 + q3 =~= p3.take(25) + (p3.skip(25) + q3));
        behind_piece(p3.take(25), p3.skip(25) + q3, key);
        behind_piece(p3.skip(25), q3, key);
        word_on_a_side(inc, p4, key);
    }
}

/// What the lines hold around the build directory.
pub open spec fn fixed_texts() -> Seq<Seq<char>> {
    seq![
        "dontUnpack=1\ndontPatch=1\nexport cmakeBuildDir='"@,
        "'\nexport cmakeDir=\"$src\"\nexport mesonBuildDir='"@,
        "'\npreConfigureHooks+=(_bobCcPreConfigure)\n_bobCcPreConfigure() {\n  cd \"$src\"\n  if [[ -e '"@,
        "/meson-private' ]]; then\n    mesonFlags+=(--reconfigure)\n  fi\n}\nchmod -R u+w '"@,
        "' 2>/dev/null || true\n"@,
    ]
}

/// The pieces of the lines: the fixed texts, and between each two of them the build directory.
pub open spec fn pieces(inc: Seq<char>) -> Seq<Seq<char>> {
    let t = fixed_texts();
    seq![t[0], inc, t[1], inc, t[2], inc, t[3], inc, t[4]]
}

/// Some pieces, put together.
pub open spec fn put_together(ps: Seq<Seq<char>>) -> Seq<char>
    decreases ps.len(),
{
    if ps.len() == 0 {
        Seq::empty()
    } else {
        put_together(ps.drop_last()) + ps.last()
    }
}

/// A word stands across a seam of some pieces.
pub open spec fn across_a_seam(ps: Seq<Seq<char>>, w: Seq<char>) -> bool {
    exists|j: int|
        0 < j < ps.len() && crosses(
            put_together(#[trigger] ps.take(j)),
            put_together(ps.skip(j)),
            w,
        )
}

proof fn in_a_piece_or_across(ps: Seq<Seq<char>>, w: Seq<char>)
    requires
        ps.len() > 0,
        text::occurs(put_together(ps), w),
    ensures
        (exists|j: int| 0 <= j < ps.len() && text::occurs(#[trigger] ps[j], w)) || across_a_seam(
            ps,
            w,
        ),
    decreases ps.len(),
{
    let n = ps.len() as int;
    let front = ps.drop_last();
    let last = ps.last();
    on_a_side_or_across(put_together(front), last, w);
    if text::occurs(last, w) {
        assert(text::occurs(ps[n - 1], w));
    } else if n == 1 {
        assert(put_together(front) =~= Seq::empty());
        assert(put_together(ps) =~= last);
    } else if crosses(put_together(front), last, w) {
        assert(ps.take(n - 1) =~= front);
        assert(ps.skip(n - 1) =~= seq![last]);
        assert(seq![last].drop_last() =~= Seq::<Seq<char>>::empty());
        assert(seq![last].last() == last);
        reveal_with_fuel(put_together, 2);
        assert(put_together(seq![last]) =~= last);
        assert(crosses(put_together(ps.take(n - 1)), put_together(ps.skip(n - 1)), w));
    } else {
        in_a_piece_or_across(front, w);
        if exists|j: int| 0 <= j < front.len() && text::occurs(#[trigger] front[j], w) {
            let j = choose|j: int| 0 <= j < front.len() && text::occurs(#[trigger] front[j], w);
            assert(text::occurs(ps[j], w));
        } else {
            let j = choose|j: int|
                0 < j < front.len() && crosses(
                    put_together(#[trigger] front.take(j)),
                    put_together(front.skip(j)),
                    w,
                );
            assert(front.take(j) =~= ps.take(j));
            assert(ps.skip(j).drop_last() =~= front.skip(j));
            let f = put_together(front.skip(j));
            assert(put_together(ps.skip(j)) =~= f + last);
            let k = choose|k: int|
                0 < k < w.len() && (#[trigger] w.take(k)).is_suffix_of(put_together(front.take(j)))
                    && w.skip(k).is_prefix_of(f);
            let v = w.skip(k);
            assert((f + last).subrange(0, v.len() as int) =~= f.subrange(0, v.len() as int));
            assert(crosses(put_together(ps.take(j)), put_together(ps.skip(j)), w));
        }
    }
}

#[verifier::spinoff_prover]
proof fn lines_are_pieces(inc: Seq<char>)
    ensures
        build_lines(inc) == put_together(pieces(inc)),
{
    reveal_strlit("dontUnpack=1\ndontPatch=1\n");
    reveal_strlit("export ");
    reveal_strlit("='");
    reveal_strlit("'\n");
    reveal_strlit("cmakeBuildDir");
    reveal_strlit("mesonBuildDir");
    reveal_strlit("export cmakeDir=\"$src\"\n");
    reveal_strlit(
        "preConfigureHooks+=(_bobCcPreConfigure)\n_bobCcPreConfigure() {\n  cd \"$src\"\n  if [[ -e '",
    );
    reveal_strlit("/meson-private' ]]; then\n    mesonFlags+=(--reconfigure)\n  fi\n}\n");
    reveal_strlit("chmod -R u+w '");
    reveal_strlit("' 2>/dev/null || true\n");
    reveal_strlit("dontUnpack=1\ndontPatch=1\nexport cmakeBuildDir='");
    reveal_strlit("'\nexport cmakeDir=\"$src\"\nexport mesonBuildDir='");
    reveal_strlit(
        "'\npreConfigureHooks+=(_bobCcPreConfigure)\n_bobCcPreConfigure() {\n  cd \"$src\"\n  if [[ -e '",
    );
    reveal_strlit(
        "/meson-private' ]]; then\n    mesonFlags+=(--reconfigure)\n  fi\n}\nchmod -R u+w '",
    );
    let t = fixed_texts();
    assert("dontUnpack=1\ndontPatch=1\n"@ + "export "@ + "cmakeBuildDir"@ + "='"@ =~= t[0]);
    assert("'\n"@ + "export cmakeDir=\"$src\"\n"@ + "export "@ + "mesonBuildDir"@ + "='"@ =~= t[1]);
    assert("'\n"@
        + "preConfigureHooks+=(_bobCcPreConfigure)\n_bobCcPreConfigure() {\n  cd \"$src\"\n  if [[ -e '"@
        =~= t[2]);
    assert("/meson-private' ]]; then\n    mesonFlags+=(--reconfigure)\n  fi\n}\n"@
        + "chmod -R u+w '"@ =~= t[3]);
    let all = t[0] + inc + t[1] + inc + t[2] + inc + t[3] + inc + t[4];
    assert(build_lines(inc) =~= all);
    let ps = pieces(inc);
    reveal_with_fuel(put_together, 10);
    assert(put_together(ps) =~= all);
}

/// A word that is in none of the fixed texts and not in the build directory's path, and that stands
/// across no seam of them, is not in the lines.
pub proof fn hooks_hold_no_other_word(inc: Seq<char>, w: Seq<char>)
    requires
        forall|j: int| 0 <= j < pieces(inc).len() ==> !text::occurs(#[trigger] pieces(inc)[j], w),
        !across_a_seam(pieces(inc), w),
    ensures
        !text::occurs(build_lines(inc), w),
{
    lines_are_pieces(inc);
    if text::occurs(build_lines(inc), w) {
        in_a_piece_or_across(pieces(inc), w);
    }
}

proof fn first_of_pieces(ps: Seq<Seq<char>>)
    requires
        ps.len() > 0,
        ps[0].len() > 0,
    ensures
        put_together(ps).len() > 0,
        put_together(ps)[0] == ps[0][0],
    decreases ps.len(),
{
    if ps.len() == 1 {
        assert(put_together(ps.drop_last()) =~= Seq::empty());
    } else {
        first_of_pieces(ps.drop_last());
    }
}

/// A quote or a slash stands at each seam of the lines.
proof fn seams_are_marked(inc: Seq<char>, w: Seq<char>)
    requires
        across_a_seam(pieces(inc), w),
    ensures
        w.contains('\'') || w.contains('/'),
{
    reveal_strlit("dontUnpack=1\ndontPatch=1\nexport cmakeBuildDir='");
    reveal_strlit("'\nexport cmakeDir=\"$src\"\nexport mesonBuildDir='");
    reveal_strlit(
        "'\npreConfigureHooks+=(_bobCcPreConfigure)\n_bobCcPreConfigure() {\n  cd \"$src\"\n  if [[ -e '",
    );
    reveal_strlit(
        "/meson-private' ]]; then\n    mesonFlags+=(--reconfigure)\n  fi\n}\nchmod -R u+w '",
    );
    reveal_strlit("' 2>/dev/null || true\n");
    let ps = pieces(inc);
    let t = fixed_texts();
    let j = choose|j: int|
        0 < j < ps.len() && crosses(
            put_together(#[trigger] ps.take(j)),
            put_together(ps.skip(j)),
            w,
        );
    let a = put_together(ps.take(j));
    let b = put_together(ps.skip(j));
    seam_is_in_the_word(a, b, w);
    if j % 2 == 1 {
        assert(ps.take(j).last() == ps[j - 1]);
        assert(ps[j - 1].len() > 0 && ps[j - 1].last() == '\'');
        assert(a.last() == ps[j - 1].last());
    } else {
        assert(ps.skip(j)[0] == ps[j]);
        assert(ps[j].len() > 0 && (ps[j][0] == '\'' || ps[j][0] == '/'));
        first_of_pieces(ps.skip(j));
    }
}

proof fn name_in_joined(base: Seq<char>, rel: Seq<char>, name: Seq<char>)
    requires
        !name.contains('/'),
        text::occurs(path::joined(base, rel), name),
    ensures
        text::occurs(base, name) || text::occurs(rel, name),
{
    reveal_strlit("/");
    if rel.len() > 0 && rel[0] == '/' {
    } else if base.len() == 0 {
        assert(base + rel =~= rel);
    } else if base.last() == '/' {
        on_a_side_or_across(base, rel, name);
        if crosses(base, rel, name) {
            seam_is_in_the_word(base, rel, name);
        }
    } else {
        let b = base + "/"@;
        assert(b.last() == '/');
        on_a_side_or_across(b, rel, name);
        if crosses(b, rel, name) {
            seam_is_in_the_word(b, rel, name);
        } else if text::occurs(b, name) {
            on_a_side_or_across(base, "/"@, name);
            if crosses(base, "/"@, name) {
                seam_is_in_the_word(base, "/"@, name);
            }
            if text::occurs("/"@, name) {
                let i = choose|i: int| text::has_at("/"@, i, name);
                if name.len() > 0 {
                    assert("/"@.subrange(i, i + name.len())[0] == '/');
                    assert(name[0] == '/');
                } else {
                    assert(base.subrange(0, 0) =~= name);
                    assert(text::has_at(base, 0, name));
                }
            }
        }
    }
}

/// Whatever the temporary directory of a build is called, its name is not in the lines: a name
/// without a quote is there only if it is in a fixed text, in the path of the cache, in the name
/// of the directory that holds the build directories, or in the key of the derivation.
pub proof fn hooks_hold_no_other_name(ctx: ContextView, name: Seq<char>)
    requires
        !name.contains('/'),
        !name.contains('\''),
        forall|j: int| 0 <= j < fixed_texts().len() ==> !text::occurs(#[trigger] fixed_texts()[j], name),
        !text::occurs(ctx.root, name),
        !text::occurs("incremental"@, name),
        !text::occurs(cache::drv_key(ctx.drv_path), name),
    ensures
        !text::occurs(added(ctx).lines, name),
{
    let inc = cache::incremental_place(ctx.root, ctx.drv_path);
    let t = fixed_texts();
    if text::occurs(inc, name) {
        let above = path::joined(ctx.root, "incremental"@);
        name_in_joined(above, cache::drv_key(ctx.drv_path), name);
        name_in_joined(ctx.root, "incremental"@, name);
    }
    if across_a_seam(pieces(inc), name) {
        seams_are_marked(inc, name);
    }
    assert forall|j: int| 0 <= j < pieces(inc).len() implies !text::occurs(
        #[trigger] pieces(inc)[j],
        name,
    ) by {
        if j % 2 == 0 {
            assert(pieces(inc)[j] == t[j / 2]);
        } else {
            assert(pieces(inc)[j] == inc);
        }
    }
    hooks_hold_no_other_word(inc, name);
}

/// Whether a build left something usable: anything in the `lib` or the `bin` of an output.
pub open spec fn populated(names: Map<Seq<char>, NamesView>, d: DrvView) -> bool {
    exists|o: Seq<char>| #[trigger]
        d.outputs.contains_key(o) && names.contains_key(o) && (names[o].lib.len() > 0
            || names[o].bin.len() > 0)
}

/// Whether a build left something usable.
pub fn output_populated(names: &StrMap<OutputNames>, drv: &Derivation) -> (r: bool)
    ensures
        r == populated(names@, drv.deep_view()),
{
    let ghost l = strmap::listing(drv.outputs@);
    let n: usize = drv.outputs.len();
    for i in 0..n
        invariant
            l == strmap::listing(drv.outputs@),
            n == l.len(),
            strmap::ascending(l),
            strmap::as_map(l) == drv.outputs@,
            forall|j: int|
                0 <= j < i ==> !(names@.contains_key((#[trigger] l[j]).0) && (
                names@[l[j].0].lib.len() > 0 || names@[l[j].0].bin.len() > 0)),
    {
        match names.get(drv.outputs.key(i).as_str()) {
            Some(o) => {
                if o.lib.len() > 0 || o.bin.len() > 0 {
                    proof {
                        strmap::ascending_index(l, i as int);
                        assert(drv.deep_view().outputs.contains_key(l[i as int].0));
                    }
                    return true;
                }
            },
            None => {},
        }
    }
    proof {
        assert forall|o: Seq<char>| #[trigger]
            drv.deep_view().outputs.contains_key(o) implies !(names@.contains_key(o) && (
        names@[o].lib.len() > 0 || names@[o].bin.len() > 0)) by {
            assert(strmap::as_map(l).contains_key(o));
            assert(strmap::has_key(l, o));
        }
    }
    false
}

/// A build that left anything in the `lib` or the `bin` of one of its outputs left something usable,
/// and only such a one did.
pub proof fn anything_in_an_output_is_usable(
    names: Map<Seq<char>, NamesView>,
    d: DrvView,
    o: Seq<char>,
    f: Seq<char>,
)
    ensures
        d.outputs.contains_key(o) && names.contains_key(o) && (names[o].lib.contains(f)
            || names[o].bin.contains(f)) ==> populated(names, d),
        (forall|n: Seq<char>| #[trigger]
            d.outputs.contains_key(n) && names.contains_key(n) ==> names[n].lib.len() == 0
                && names[n].bin.len() == 0) ==> !populated(names, d),
{
}

} // verus!
