//! Replay of a unit's `genericBuild` outside the Nix sandbox.
//!
//! For each unit: the variables of its derivation are exported with their paths rewritten,
//! `$stdenv/setup` is sourced, and `genericBuild` runs. Every declared output points into the
//! directory where the unit is built. This module decides what is written where and what the
//! build script says; the caller writes the files, runs the script and reports back.
use crate::attrs;
use crate::backend::{Backend, BuildContext, ContextView, Hooks, HooksView, OutputNames};
use crate::cache;
use crate::cache::ArtifactCache;
use crate::digest;
use crate::drv::{Derivation, DrvView};
use crate::json;
use crate::overrides;
use crate::path;
use crate::rewrite;
use crate::rewrite::PathRewriter;
use crate::sorting;
use crate::strmap;
use crate::strmap::StrMap;
use crate::text;
use vstd::prelude::*;
use vstd::utf8::*;

verus! {

/// Another key for a unit, and optionally other source, where a cached derivation is used again
/// although its inputs have changed.
#[derive(Debug)]
pub struct SourceOverride {
    /// The directory to build from in place of the store path in the derivation.
    pub src_path: Option<String>,
    /// The effective hash, which is mixed into the key.
    pub source_hash: String,
}

/// What a [`SourceOverride`] holds.
#[verifier::ext_equal]
pub struct OverrideView {
    pub src_path: Option<Seq<char>>,
    pub source_hash: Seq<char>,
}

impl DeepView for SourceOverride {
    type V = OverrideView;

    open spec fn deep_view(&self) -> OverrideView {
        OverrideView {
            src_path: match self.src_path {
                Some(p) => Some(p@),
                None => None,
            },
            source_hash: self.source_hash@,
        }
    }
}

/// The result of a build, with its duration in milliseconds.
#[derive(Debug)]
pub struct BuildResult {
    pub success: bool,
    pub duration: u64,
    pub stdout: String,
    pub stderr: String,
}

/// The key of a unit: that of its derivation, with the hash of an override mixed in.
pub open spec fn effective(drv_path: Seq<char>, ov: Option<OverrideView>) -> Seq<char> {
    match ov {
        Some(o) => cache::source_key(drv_path, o.source_hash),
        None => cache::drv_key(drv_path),
    }
}

/// Gives the key of a unit.
pub fn effective_key(drv_path: &str, src_override: Option<&SourceOverride>) -> (r: String)
    ensures
        r@ == effective(
            drv_path@,
            match src_override {
                Some(o) => Some(o.deep_view()),
                None => None,
            },
        ),
{
    match src_override {
        Some(o) => ArtifactCache::cache_key_with_source(drv_path, o.source_hash.as_str()),
        None => ArtifactCache::cache_key(drv_path),
    }
}

/// The rewriter of a unit: the store path of each output of a dependency becomes the place where
/// that output lies.
pub fn make_rewriter(_drv: &Derivation, dep_cache_map: &StrMap<String>) -> (r: PathRewriter)
    ensures
        r@ == strmap::listing(dep_cache_map@),
{
    let ghost l = strmap::listing(dep_cache_map@);
    let n: usize = dep_cache_map.len();
    let mut rw = PathRewriter::new();
    assert(l.take(0) =~= Seq::empty());
    for i in 0..n
        invariant
            l == strmap::listing(dep_cache_map@),
            n == l.len(),
            rw@ == l.take(i as int),
    {
        rw.add(dep_cache_map.key(i).clone(), dep_cache_map.value(i).clone());
        assert(l.take(i + 1) =~= l.take(i as int).push(l[i as int]));
    }
    assert(l.take(n as int) =~= l);
    rw
}

/// A line that exports a variable, between single quotes.
pub open spec fn export_line(name: Seq<char>, value: Seq<char>) -> Seq<char> {
    "export "@ + name + "='"@ + value + "'\n"@
}

/// Appends a line that exports a variable.
pub fn push_export(s: &mut String, name: &str, value: &str)
    ensures
        final(s)@ == old(s)@ + export_line(name@, value@),
{
    s.append("export ");
    s.append(name);
    s.append("='");
    s.append(value);
    s.append("'\n");
    assert(s@ =~= old(s)@ + export_line(name@, value@));
}

/// The lines that export all variables whose names are identifiers.
pub open spec fn env_lines(l: Seq<(Seq<char>, Seq<char>)>) -> Seq<char>
    decreases l.len(),
{
    if l.len() == 0 {
        Seq::empty()
    } else if attrs::bash_ident(l.last().0) {
        env_lines(l.drop_last()) + ("export "@ + l.last().0 + "=$'"@ + attrs::dollar_escaped(
            l.last().1,
        ) + "'\n"@)
    } else {
        env_lines(l.drop_last())
    }
}

/// Writes the lines that export all variables of an environment.
pub fn env_text(env: &StrMap<String>) -> (r: String)
    ensures
        r@ == env_lines(strmap::listing(env@)),
{
    let ghost l = strmap::listing(env@);
    let n: usize = env.len();
    let mut s = String::new();
    assert(l.take(0) =~= Seq::empty());
    for i in 0..n
        invariant
            l == strmap::listing(env@),
            n == l.len(),
            s@ == env_lines(l.take(i as int)),
    {
        assert(l.take(i + 1).drop_last() =~= l.take(i as int));
        let ghost s0 = s@;
        let k = env.key(i);
        if attrs::is_valid_bash_ident(k.as_str()) {
            s.append("export ");
            s.append(k.as_str());
            s.append("=$'");
            s.append(attrs::escape_for_dollar_single_quote(env.value(i).as_str()).as_str());
            s.append("'\n");
            assert(s@ =~= env_lines(l.take(i + 1)));
        }
    }
    assert(l.take(n as int) =~= l);
    s
}

/// The lines that export the places of the outputs.
pub open spec fn output_lines(l: Seq<(Seq<char>, Seq<char>)>) -> Seq<char>
    decreases l.len(),
{
    if l.len() == 0 {
        Seq::empty()
    } else {
        output_lines(l.drop_last()) + export_line(l.last().0, l.last().1)
    }
}

fn push_outputs(s: &mut String, outs: &StrMap<String>)
    ensures
        final(s)@ == old(s)@ + output_lines(strmap::listing(outs@)),
{
    let ghost l = strmap::listing(outs@);
    let n: usize = outs.len();
    assert(l.take(0) =~= Seq::empty());
    for i in 0..n
        invariant
            l == strmap::listing(outs@),
            n == l.len(),
            s@ == old(s)@ + output_lines(l.take(i as int)),
    {
        assert(l.take(i + 1).drop_last() =~= l.take(i as int));
        push_export(s, outs.key(i).as_str(), outs.value(i).as_str());
        assert(s@ =~= old(s)@ + output_lines(l.take(i + 1)));
    }
    assert(l.take(n as int) =~= l);
}

/// The place of each output of a unit that is built in `tmp`.
pub open spec fn output_places(d: DrvView, tmp: Seq<char>) -> Map<Seq<char>, Seq<char>> {
    Map::new(
        |k: Seq<char>| d.outputs.contains_key(k),
        |k: Seq<char>| path::joined(tmp, k),
    )
}

/// Gives the place of each output of a unit that is built in `tmp`.
pub fn out_paths(drv: &Derivation, tmp: &str) -> (r: StrMap<String>)
    ensures
        r@ == output_places(drv.deep_view(), tmp@),
{
    let ghost l = strmap::listing(drv.outputs@);
    let n: usize = drv.outputs.len();
    let mut m: StrMap<String> = StrMap::new();
    for i in 0..n
        invariant
            l == strmap::listing(drv.outputs@),
            n == l.len(),
            forall|k: Seq<char>| #[trigger]
                m@.contains_key(k) <==> strmap::has_key(l.take(i as int), k),
            forall|k: Seq<char>| #[trigger] m@.contains_key(k) ==> m@[k] == path::joined(tmp@, k),
    {
        let ghost before = m@;
        let name = drv.outputs.key(i);
        m.insert(name.clone(), path::join(tmp, name.as_str()));
        proof {
            assert forall|k: Seq<char>| #[trigger] m@.contains_key(k) <==> strmap::has_key(
                l.take(i + 1),
                k,
            ) by {
                assert(before.contains_key(k) <==> strmap::has_key(l.take(i as int), k));
                strmap::one_more_key(l, i as int, k);
            }
        }
    }
    proof {
        assert(l.take(n as int) =~= l);
        assert forall|k: Seq<char>| m@.contains_key(k) <==> drv.outputs@.contains_key(k) by {
            assert(strmap::as_map(l).contains_key(k) <==> strmap::has_key(l, k));
        }
        assert(m@ =~= output_places(drv.deep_view(), tmp@));
    }
    m
}

/// The lines that point a build at its working directory.
pub open spec fn work_lines(work: Seq<char>) -> Seq<char> {
    export_line("NIX_BUILD_TOP"@, work) + export_line("TMPDIR"@, work) + export_line(
        "TEMPDIR"@,
        work,
    ) + export_line("TMP"@, work) + export_line("TEMP"@, work) + export_line(
        "HOME"@,
        "/homeless-shelter"@,
    ) + "export dontFixup=1\n"@ + "cd '"@ + work + "'\n"@
}

/// Appends the lines that point a build at its working directory.
pub fn push_work(s: &mut String, work: &str)
    ensures
        final(s)@ == old(s)@ + work_lines(work@),
{
    let mut t = String::new();
    push_export(&mut t, "NIX_BUILD_TOP", work);
    push_export(&mut t, "TMPDIR", work);
    push_export(&mut t, "TEMPDIR", work);
    push_export(&mut t, "TMP", work);
    push_export(&mut t, "TEMP", work);
    push_export(&mut t, "HOME", "/homeless-shelter");
    t.append("export dontFixup=1\n");
    t.append("cd '");
    t.append(work);
    t.append("'\n");
    assert(t@ =~= work_lines(work@));
    s.append(t.as_str());
}

/// The lines that source `$stdenv/setup` with the inputs of the unit in scope.
pub const SETUP: &'static str = "
export NIX_STORE=/nix/store
export NIX_ENFORCE_PURITY=0
source \"$stdenv/setup\"
";

/// The lines that run the build and hand on its exit code.
pub const RUN: &'static str = "
dumpVars() { :; }
showPhaseHeader() { :; }
showPhaseFooter() { :; }

_ms() { read _s _ < /proc/uptime; echo \"${_s/./}\"; }
_t0=$(_ms)
set +e
genericBuild
rc=$?
_t1=$(_ms)
echo \"__TIMING__ phases=$((_t1-_t0))0ms\" >&2
exit $rc
";

/// A file to write: its path and its text.
pub struct TextFile {
    pub path: String,
    pub text: String,
}

impl DeepView for TextFile {
    type V = (Seq<char>, Seq<char>);

    open spec fn deep_view(&self) -> (Seq<char>, Seq<char>) {
        (self.path@, self.text@)
    }
}

/// The files and the lines of the build script that give a unit its environment.
pub struct UnitEnv {
    pub files: Vec<TextFile>,
    pub script: String,
}

/// What a [`UnitEnv`] holds.
#[verifier::ext_equal]
pub struct EnvView {
    pub files: Seq<(Seq<char>, Seq<char>)>,
    pub script: Seq<char>,
}

impl DeepView for UnitEnv {
    type V = EnvView;

    open spec fn deep_view(&self) -> EnvView {
        EnvView { files: self.files.deep_view(), script: self.script@ }
    }
}

/// The environment of a unit with structured attributes, whose text and `.attrs.sh` are given: both
/// are written, and the second is sourced before `$stdenv/setup`.
pub open spec fn structured_env(tmp: Seq<char>, attrs_json: Seq<char>, attrs_sh: Seq<char>) -> EnvView {
    let json_path = path::joined(tmp, ".attrs.json"@);
    let sh_path = path::joined(tmp, ".attrs.sh"@);
    EnvView {
        files: seq![(json_path, attrs_json), (sh_path, attrs_sh)],
        script: export_line("NIX_ATTRS_JSON_FILE"@, json_path) + export_line(
            "NIX_ATTRS_SH_FILE"@,
            sh_path,
        ) + "source '"@ + sh_path + "'\n"@,
    }
}

/// The environment of a unit without structured attributes, whose variables are given: all are
/// exported, and then the source, where it is overridden, and the outputs.
pub open spec fn plain_env(
    tmp: Seq<char>,
    env: Map<Seq<char>, Seq<char>>,
    src: Option<Seq<char>>,
    outs: Map<Seq<char>, Seq<char>>,
    outputs: Seq<char>,
) -> EnvView {
    let env_path = path::joined(tmp, "env.sh"@);
    EnvView {
        files: seq![(env_path, env_lines(strmap::listing(env)))],
        script: "source '"@ + env_path + "'\n"@ + (match src {
            Some(p) => export_line("src"@, p),
            None => Seq::empty(),
        }) + output_lines(strmap::listing(outs)) + export_line("outputs"@, outputs),
    }
}

/// The names of the outputs, as the derivation gives them to the builder.
pub open spec fn outputs_var(d: DrvView) -> Seq<char> {
    match overrides::value_at(d.env, "outputs"@) {
        Some(o) => o,
        None => "out"@,
    }
}

/// The environment of a unit. One with structured attributes must have them, and they must be
/// JSON.
pub open spec fn unit_env_of(
    d: DrvView,
    structured: bool,
    tmp: Seq<char>,
    rw: Seq<(Seq<char>, Seq<char>)>,
    src: Option<Seq<char>>,
) -> Result<EnvView, Seq<char>> {
    let outs = output_places(d, tmp);
    if structured {
        match overrides::value_at(d.env, "__json"@) {
            None => Err("structuredAttrs drv missing __json"@),
            Some(j) => {
                let t = attrs::rewritten_attrs_text(j, outs, rw, src);
                match json::json_parsed(t) {
                    Err(e) => Err("parsing __json: "@ + e),
                    Ok(v) => Ok(structured_env(tmp, t, attrs::attrs_sh(v))),
                }
            },
        }
    } else {
        Ok(
            plain_env(
                tmp,
                d.env.map_values(|v: Seq<char>| rewrite::rewritten(rw, v)),
                src,
                outs,
                outputs_var(d),
            ),
        )
    }
}

/// Gives the environment of a unit with structured attributes.
pub fn make_structured_env(tmp: &str, attrs_json: String, attrs_sh: String) -> (r: UnitEnv)
    ensures
        r.deep_view() == structured_env(tmp@, attrs_json@, attrs_sh@),
{
    let json_path = path::join(tmp, ".attrs.json");
    let sh_path = path::join(tmp, ".attrs.sh");
    let mut script = String::new();
    push_export(&mut script, "NIX_ATTRS_JSON_FILE", json_path.as_str());
    push_export(&mut script, "NIX_ATTRS_SH_FILE", sh_path.as_str());
    script.append("source '");
    script.append(sh_path.as_str());
    script.append("'\n");
    let mut files: Vec<TextFile> = Vec::new();
    files.push(TextFile { path: json_path, text: attrs_json });
    files.push(TextFile { path: sh_path, text: attrs_sh });
    let r = UnitEnv { files, script };
    proof {
        let e = structured_env(tmp@, attrs_json@, attrs_sh@);
        assert(r.deep_view().files =~= e.files);
        assert(r.deep_view().script =~= e.script);
    }
    r
}

/// Gives the environment of a unit without structured attributes.
pub fn make_plain_env(
    tmp: &str,
    env: &StrMap<String>,
    src: Option<&str>,
    outs: &StrMap<String>,
    outputs: &str,
) -> (r: UnitEnv)
    ensures
        r.deep_view() == plain_env(
            tmp@,
            env@,
            match src {
                Some(p) => Some(p@),
                None => None,
            },
            outs@,
            outputs@,
        ),
{
    let env_path = path::join(tmp, "env.sh");
    let mut script = "source '".to_owned();
    script.append(env_path.as_str());
    script.append("'\n");
    match src {
        Some(p) => {
            push_export(&mut script, "src", p);
        },
        None => {},
    }
    push_outputs(&mut script, outs);
    push_export(&mut script, "outputs", outputs);
    let mut files: Vec<TextFile> = Vec::new();
    files.push(TextFile { path: env_path, text: env_text(env) });
    let r = UnitEnv { files, script };
    proof {
        let e = plain_env(
            tmp@,
            env@,
            match src {
                Some(p) => Some(p@),
                None => None,
            },
            outs@,
            outputs@,
        );
        assert(r.deep_view().files =~= e.files);
        assert(r.deep_view().script =~= e.script);
    }
    r
}

/// The names of the outputs of a derivation.
pub fn outputs_of(drv: &Derivation) -> (r: String)
    ensures
        r@ == outputs_var(drv.deep_view()),
{
    match drv.env.get("outputs") {
        Some(o) => o.clone(),
        None => "out".to_owned(),
    }
}

/// Gives the environment of a unit that is built in `tmp`.
pub fn unit_env(
    drv: &Derivation,
    structured: bool,
    tmp: &str,
    rewriter: &PathRewriter,
    src: Option<&str>,
) -> (r: Result<UnitEnv, String>)
    ensures
        ({
            let want = unit_env_of(
                drv.deep_view(),
                structured,
                tmp@,
                rewriter@,
                match src {
                    Some(p) => Some(p@),
                    None => None,
                },
            );
            match r {
                Ok(e) => want == Ok::<EnvView, Seq<char>>(e.deep_view()),
                Err(m) => want == Err::<EnvView, Seq<char>>(m@),
            }
        }),
{
    let outs = out_paths(drv, tmp);
    if structured {
        match drv.env.get("__json") {
            None => Err("structuredAttrs drv missing __json".to_owned()),
            Some(j) => {
                let t = attrs::rewrite_structured_attrs_json(j.as_str(), &outs, rewriter, src);
                match json::parse_json(t.as_str()) {
                    Err(e) => {
                        let mut m = "parsing __json: ".to_owned();
                        m.append(e.as_str());
                        Err(m)
                    },
                    Ok(v) => {
                        let sh = attrs::json_to_attrs_sh(&v);
                        Ok(make_structured_env(tmp, t, sh))
                    },
                }
            },
        }
    } else {
        let env = rewriter.rewrite_env(&drv.env);
        let outputs = outputs_of(drv);
        Ok(make_plain_env(tmp, &env, src, &outs, outputs.as_str()))
    }
}

/// Where a unit is replayed. The place depends on the derivation alone: compilers take it into
/// what they keep between builds.
pub open spec fn work_place(root: Seq<char>, drv_path: Seq<char>) -> Seq<char> {
    path::joined(path::joined(root, "build"@), cache::drv_key(drv_path))
}

/// Gives the place where a unit is replayed.
pub fn work_dir(cache: &ArtifactCache, drv_path: &str) -> (r: String)
    ensures
        r@ == work_place(cache@, drv_path@),
{
    path::join(
        path::join(cache.root(), "build").as_str(),
        ArtifactCache::cache_key(drv_path).as_str(),
    )
}

/// The build script: the environment, the working directory, `$stdenv/setup`, what the backend
/// adds, and the build.
pub open spec fn script_of(env: Seq<char>, work: Seq<char>, hooks: Seq<char>) -> Seq<char> {
    env + work_lines(work) + SETUP@ + hooks + RUN@
}

/// Writes the build script.
pub fn build_script(env: &str, work: &str, hooks: &str) -> (r: String)
    ensures
        r@ == script_of(env@, work@, hooks@),
{
    let mut s = env.to_owned();
    push_work(&mut s, work);
    s.append(SETUP);
    s.append(hooks);
    s.append(RUN);
    s
}

/// What is decided about a build before it runs.
pub struct UnitBuild {
    /// How the unit is shown.
    pub name: String,
    /// Where the artifact goes. What lies there from before is stale.
    pub dest: String,
    /// Where the unit is built, with a directory for each output.
    pub tmp: String,
    pub out_paths: StrMap<String>,
    /// Where the unit is replayed; it is emptied before.
    pub work_dir: String,
    /// What the backend adds.
    pub hooks: Hooks,
    /// The files with the environment of the unit.
    pub files: Vec<TextFile>,
    /// The build script.
    pub script: TextFile,
}

/// What a [`UnitBuild`] holds.
#[verifier::ext_equal]
pub struct BuildView {
    pub name: Seq<char>,
    pub dest: Seq<char>,
    pub tmp: Seq<char>,
    pub out_paths: Map<Seq<char>, Seq<char>>,
    pub work_dir: Seq<char>,
    pub hooks: HooksView,
    pub files: Seq<(Seq<char>, Seq<char>)>,
    pub script: (Seq<char>, Seq<char>),
}

impl DeepView for UnitBuild {
    type V = BuildView;

    open spec fn deep_view(&self) -> BuildView {
        BuildView {
            name: self.name@,
            dest: self.dest@,
            tmp: self.tmp@,
            out_paths: self.out_paths@,
            work_dir: self.work_dir@,
            hooks: self.hooks.deep_view(),
            files: self.files.deep_view(),
            script: self.script.deep_view(),
        }
    }
}

/// The directory to build from in place of the store path in the derivation.
pub open spec fn override_src(ov: Option<OverrideView>) -> Option<Seq<char>> {
    match ov {
        Some(o) => o.src_path,
        None => None,
    }
}

/// The build of a unit: its artifact goes where its key says, and it is built and replayed where its
/// derivation says. The script gives the unit its environment, sources `$stdenv/setup`, runs
/// what the backend adds, and then the build.
pub open spec fn build_of(
    ctx: ContextView,
    name: Seq<char>,
    hooks: HooksView,
    env: EnvView,
    ov: Option<OverrideView>,
) -> BuildView {
    let work = work_place(ctx.root, ctx.drv_path);
    BuildView {
        name,
        dest: cache::artifact_path(ctx.root, effective(ctx.drv_path, ov)),
        tmp: ctx.tmp,
        out_paths: output_places(ctx.drv, ctx.tmp),
        work_dir: work,
        hooks,
        files: env.files,
        script: (
            path::joined(ctx.tmp, "builder.sh"@),
            script_of(env.script, work, hooks.lines),
        ),
    }
}

/// The context of a unit at the place where it is built.
pub open spec fn placed(ctx: ContextView) -> ContextView {
    ContextView { tmp: cache::tmp_place(ctx.root, ctx.drv_path), ..ctx }
}

/// Decides about the build of a unit.
pub fn build_unit<B: Backend + ?Sized>(
    ctx: BuildContext<'_>,
    backend: &B,
    rewriter: &PathRewriter,
    structured: bool,
    src_override: Option<&SourceOverride>,
) -> (r: Result<UnitBuild, String>)
    ensures
        ({
            let at = placed(ctx.deep_view());
            let ov = match src_override {
                Some(o) => Some(o.deep_view()),
                None => None,
            };
            let env = unit_env_of(at.drv, structured, at.tmp, rewriter@, override_src(ov));
            match r {
                Ok(b) => env matches Ok(e) && b.deep_view() == build_of(
                    at,
                    backend.shown(at.drv),
                    backend.hooks_of(at),
                    e,
                    ov,
                ),
                Err(m) => env == Err::<EnvView, Seq<char>>(m@),
            }
        }),
{
    let tmp = ctx.cache.tmp_dir(ctx.drv_path);
    let key = effective_key(ctx.drv_path, src_override);
    let src = match src_override {
        Some(o) => match &o.src_path {
            Some(p) => Some(p.as_str()),
            None => None,
        },
        None => None,
    };
    let env = match unit_env(ctx.drv, structured, tmp.as_str(), rewriter, src) {
        Err(m) => {
            return Err(m);
        },
        Ok(env) => env,
    };
    let at = BuildContext {
        drv_path: ctx.drv_path,
        drv: ctx.drv,
        tmp: tmp.as_str(),
        cache: ctx.cache,
        is_root: ctx.is_root,
        self_exe: ctx.self_exe,
    };
    let hooks = backend.build_script_hooks(&at);
    let work = work_dir(ctx.cache, ctx.drv_path);
    let text = build_script(env.script.as_str(), work.as_str(), hooks.lines.as_str());
    let script = TextFile { path: path::join(tmp.as_str(), "builder.sh"), text };
    Ok(
        UnitBuild {
            name: backend.unit_name(ctx.drv),
            dest: ctx.cache.artifact_dir_by_key(key.as_str()),
            out_paths: out_paths(ctx.drv, tmp.as_str()),
            work_dir: work,
            hooks,
            files: env.files,
            script,
            tmp,
        },
    )
}

/// Whether a build succeeded: its script did, and the backend finds something usable in the
/// outputs. The exit code alone does not tell.
pub fn build_succeeded<B: Backend + ?Sized>(
    exit_code: i32,
    backend: &B,
    names: &StrMap<OutputNames>,
    drv: &Derivation,
) -> (r: bool)
    ensures
        r == (exit_code == 0 && backend.left_something(names@, drv.deep_view())),
{
    exit_code == 0 && backend.output_populated(names, drv)
}

/// The place where a unit is built, and that where it is replayed, do not move when its source
/// changes.
pub proof fn places_stay_under_edits(
    ctx: ContextView,
    name: Seq<char>,
    hooks: HooksView,
    env1: EnvView,
    ov1: Option<OverrideView>,
    env2: EnvView,
    ov2: Option<OverrideView>,
)
    ensures
        ({
            let a = build_of(placed(ctx), name, hooks, env1, ov1);
            let b = build_of(placed(ctx), name, hooks, env2, ov2);
            &&& a.tmp == b.tmp
            &&& a.out_paths == b.out_paths
            &&& a.work_dir == b.work_dir
        }),
{
}

/// The directories below the place of the build that are committed: the outputs, then the
/// directory of early artifacts.
pub fn committed_dirs(out_paths: &StrMap<String>) -> (r: Vec<String>)
    ensures
        r.deep_view() == strmap::keys_of(strmap::listing(out_paths@)).push("rmeta"@),
{
    let ghost ks = strmap::keys_of(strmap::listing(out_paths@));
    let mut v = out_paths.keys();
    v.push("rmeta".to_owned());
    assert(v.deep_view() =~= ks.push("rmeta"@));
    v
}

/// Whether an entry of the place of the build stays after a successful build: an output, the early
/// artifacts, and the mark of completion. Everything else is scratch.
pub fn stays(name: &str, out_paths: &StrMap<String>) -> (r: bool)
    ensures
        r == (name@ == "rmeta"@ || name@ == "done"@ || out_paths@.contains_key(name@)),
{
    text::str_eq(name, "rmeta") || text::str_eq(name, "done") || out_paths.contains_key(name)
}

/// What is committed stays.
pub proof fn committed_dirs_stay(outs: Map<Seq<char>, Seq<char>>, l: Seq<(Seq<char>, Seq<char>)>, i: int)
    requires
        l == strmap::listing(outs),
        strmap::as_map(l) == outs,
        0 <= i < strmap::keys_of(l).push("rmeta"@).len(),
    ensures
        ({
            let name = strmap::keys_of(l).push("rmeta"@)[i];
            name == "rmeta"@ || name == "done"@ || outs.contains_key(name)
        }),
{
    if i < l.len() {
        assert(strmap::has_key(l, l[i].0));
        assert(strmap::as_map(l).contains_key(l[i].0));
    }
}

proof fn within(a: Seq<char>, p: Seq<char>, b: Seq<char>)
    ensures
        text::occurs(a + p + b, p),
{
    let s = a + p + b;
    assert(s.subrange(a.len() as int, (a.len() + p.len()) as int) =~= p);
    assert(text::has_at(s, a.len() as int, p));
}

proof fn stays_within(s: Seq<char>, b: Seq<char>, p: Seq<char>)
    requires
        text::occurs(s, p),
    ensures
        text::occurs(s + b, p),
{
    let i = choose|i: int| text::has_at(s, i, p);
    assert((s + b).subrange(i, i + p.len()) =~= s.subrange(i, i + p.len()));
    assert(text::has_at(s + b, i, p));
}

/// Every variable that bash can name is exported with its value, between quotes that bash reads as
/// that value.
pub proof fn variables_are_exported(l: Seq<(Seq<char>, Seq<char>)>, i: int)
    requires
        0 <= i < l.len(),
        attrs::bash_ident(l[i].0),
    ensures
        text::occurs(
            env_lines(l),
            "export "@ + l[i].0 + "=$'"@ + attrs::dollar_escaped(l[i].1) + "'\n"@,
        ),
    decreases l.len(),
{
    let line = "export "@ + l[i].0 + "=$'"@ + attrs::dollar_escaped(l[i].1) + "'\n"@;
    let f = l.drop_last();
    if i == l.len() - 1 {
        let none = Seq::<char>::empty();
        within(env_lines(f), line, none);
        assert(env_lines(f) + line + none =~= env_lines(l));
    } else {
        assert(f[i] == l[i]);
        variables_are_exported(f, i);
        if attrs::bash_ident(l.last().0) {
            stays_within(
                env_lines(f),
                "export "@ + l.last().0 + "=$'"@ + attrs::dollar_escaped(l.last().1) + "'\n"@,
                line,
            );
        }
    }
}

/// A variable that bash cannot name leaves no trace.
pub proof fn other_names_are_left_out(l: Seq<(Seq<char>, Seq<char>)>, i: int)
    requires
        0 <= i < l.len(),
        !attrs::bash_ident(l[i].0),
    ensures
        env_lines(l.remove(i)) == env_lines(l),
    decreases l.len(),
{
    if i == l.len() - 1 {
        assert(l.remove(i) =~= l.drop_last());
    } else {
        assert(l.remove(i).drop_last() =~= l.drop_last().remove(i));
        assert(l.remove(i).last() == l.last());
        assert(l.drop_last()[i] == l[i]);
        other_names_are_left_out(l.drop_last(), i);
    }
}

/// Each output is exported under its name as the place where the build is to put it.
pub proof fn outputs_are_exported(l: Seq<(Seq<char>, Seq<char>)>, i: int)
    requires
        0 <= i < l.len(),
    ensures
        text::occurs(output_lines(l), "export "@ + l[i].0 + "='"@ + l[i].1 + "'\n"@),
    decreases l.len(),
{
    let line = "export "@ + l[i].0 + "='"@ + l[i].1 + "'\n"@;
    let f = l.drop_last();
    if i == l.len() - 1 {
        let none = Seq::<char>::empty();
        within(output_lines(f), line, none);
        assert(output_lines(f) + line + none =~= output_lines(l));
    } else {
        assert(f[i] == l[i]);
        outputs_are_exported(f, i);
        stays_within(output_lines(f), export_line(l.last().0, l.last().1), line);
    }
}

proof fn work_exports(work: Seq<char>)
    ensures
        export_line("NIX_BUILD_TOP"@, work) == "export NIX_BUILD_TOP='"@ + work + "'\n"@,
        export_line("TMPDIR"@, work) == "export TMPDIR='"@ + work + "'\n"@,
        export_line("TEMPDIR"@, work) == "export TEMPDIR='"@ + work + "'\n"@,
        export_line("TMP"@, work) == "export TMP='"@ + work + "'\n"@,
        export_line("TEMP"@, work) == "export TEMP='"@ + work + "'\n"@,
        export_line("HOME"@, "/homeless-shelter"@) == "export HOME='/homeless-shelter'\n"@,
{
    reveal_strlit("export ");
    reveal_strlit("='");
    reveal_strlit("'\n");
    reveal_strlit("NIX_BUILD_TOP");
    reveal_strlit("TMPDIR");
    reveal_strlit("TEMPDIR");
    reveal_strlit("TMP");
    reveal_strlit("TEMP");
    reveal_strlit("HOME");
    reveal_strlit("/homeless-shelter");
    reveal_strlit("export NIX_BUILD_TOP='");
    reveal_strlit("export TMPDIR='");
    reveal_strlit("export TEMPDIR='");
    reveal_strlit("export TMP='");
    reveal_strlit("export TEMP='");
    reveal_strlit("export HOME='/homeless-shelter'\n");
    assert(export_line("NIX_BUILD_TOP"@, work) =~= "export NIX_BUILD_TOP='"@ + work + "'\n"@);
    assert(export_line("TMPDIR"@, work) =~= "export TMPDIR='"@ + work + "'\n"@);
    assert(export_line("TEMPDIR"@, work) =~= "export TEMPDIR='"@ + work + "'\n"@);
    assert(export_line("TMP"@, work) =~= "export TMP='"@ + work + "'\n"@);
    assert(export_line("TEMP"@, work) =~= "export TEMP='"@ + work + "'\n"@);
    assert(export_line("HOME"@, "/homeless-shelter"@) =~= "export HOME='/homeless-shelter'\n"@);
}

/// A build works in its own directory: that is where the temporary files go, and it is entered
/// last. There is no home, and nothing is fixed up.
pub proof fn builds_work_in_their_directory(work: Seq<char>)
    ensures
        text::occurs(work_lines(work), "export NIX_BUILD_TOP='"@ + work + "'\n"@),
        text::occurs(work_lines(work), "export TMPDIR='"@ + work + "'\n"@),
        text::occurs(work_lines(work), "export TEMPDIR='"@ + work + "'\n"@),
        text::occurs(work_lines(work), "export TMP='"@ + work + "'\n"@),
        text::occurs(work_lines(work), "export TEMP='"@ + work + "'\n"@),
        text::occurs(work_lines(work), "export HOME='/homeless-shelter'\n"@),
        text::occurs(work_lines(work), "export dontFixup=1\n"@),
        ("cd '"@ + work + "'\n"@).is_suffix_of(work_lines(work)),
{
    work_exports(work);
    let ls = work_row(work);
    work_is_a_row(work);
    in_the_row(ls, 0);
    in_the_row(ls, 1);
    in_the_row(ls, 2);
    in_the_row(ls, 3);
    in_the_row(ls, 4);
    in_the_row(ls, 5);
    in_the_row(ls, 6);
    ends_the_row(ls);
}

spec fn work_row(work: Seq<char>) -> Seq<Seq<char>> {
    seq![
        export_line("NIX_BUILD_TOP"@, work),
        export_line("TMPDIR"@, work),
        export_line("TEMPDIR"@, work),
        export_line("TMP"@, work),
        export_line("TEMP"@, work),
        export_line("HOME"@, "/homeless-shelter"@),
        "export dontFixup=1\n"@,
        "cd '"@ + work + "'\n"@,
    ]
}

proof fn work_is_a_row(work: Seq<char>)
    ensures
        work_lines(work) == row(work_row(work)),
{
    let ls = work_row(work);
    let r7 = row(ls.take(7));
    rows_grow(ls, 0);
    rows_grow(ls, 1);
    rows_grow(ls, 2);
    rows_grow(ls, 3);
    rows_grow(ls, 4);
    rows_grow(ls, 5);
    rows_grow(ls, 6);
    rows_grow(ls, 7);
    assert(ls.take(8) =~= ls);
    assert(row(ls.take(0)) =~= Seq::empty());
    assert(Seq::<char>::empty() + ls[0] =~= ls[0]);
    assert(r7 + "cd '"@ + work + "'\n"@ =~= r7 + ("cd '"@ + work + "'\n"@));
}

/// Some lines, one behind the other.
spec fn row(ls: Seq<Seq<char>>) -> Seq<char>
    decreases ls.len(),
{
    if ls.len() == 0 {
        Seq::empty()
    } else {
        row(ls.drop_last()) + ls.last()
    }
}

proof fn rows_grow(ls: Seq<Seq<char>>, i: int)
    requires
        0 <= i < ls.len(),
    ensures
        row(ls.take(i + 1)) == row(ls.take(i)) + ls[i],
{
    assert(ls.take(i + 1).drop_last() =~= ls.take(i));
}

proof fn in_the_row(ls: Seq<Seq<char>>, i: int)
    requires
        0 <= i < ls.len(),
    ensures
        text::occurs(row(ls), ls[i]),
    decreases ls.len(),
{
    let f = ls.drop_last();
    if i == ls.len() - 1 {
        let none = Seq::<char>::empty();
        within(row(f), ls[i], none);
        assert(row(f) + ls[i] + none =~= row(ls));
    } else {
        assert(f[i] == ls[i]);
        in_the_row(f, i);
        stays_within(row(f), ls.last(), ls[i]);
    }
}

proof fn ends_the_row(ls: Seq<Seq<char>>)
    requires
        ls.len() > 0,
    ensures
        ls.last().is_suffix_of(row(ls)),
{
    let s = row(ls);
    assert(s.subrange(s.len() - ls.last().len(), s.len() as int) =~= ls.last());
}

/// A build script first takes in the environment, then goes to its directory, sources
/// `$stdenv/setup`, does what the backend adds, and at last runs the build.
pub proof fn scripts_run_in_order(env: Seq<char>, work: Seq<char>, hooks: Seq<char>)
    ensures
        script_of(env, work, hooks) == env + (work_lines(work) + (SETUP@ + (hooks + RUN@))),
{
    assert(script_of(env, work, hooks) =~= env + (work_lines(work) + (SETUP@ + (hooks + RUN@))));
}

/// Without structured attributes a build sources the variables of its derivation first and then has
/// its outputs and their names put right. Its source is replaced by an override exactly where there
/// is one, before the outputs.
pub proof fn overridden_source_is_exported(
    tmp: Seq<char>,
    env: Map<Seq<char>, Seq<char>>,
    p: Seq<char>,
    outs: Map<Seq<char>, Seq<char>>,
    outputs: Seq<char>,
)
    ensures
        ({
            let first = "source '"@ + path::joined(tmp, "env.sh"@) + "'\n"@;
            let behind = output_lines(strmap::listing(outs)) + ("export outputs='"@ + outputs
                + "'\n"@);
            let with = plain_env(tmp, env, Some(p), outs, outputs);
            let without = plain_env(tmp, env, None, outs, outputs);
            &&& with.script == first + ("export src='"@ + p + "'\n"@) + behind
            &&& without.script == first + behind
            &&& with.files == without.files
            &&& with.files == seq![
                (path::joined(tmp, "env.sh"@), env_lines(strmap::listing(env))),
            ]
        }),
{
    reveal_strlit("export ");
    reveal_strlit("='");
    reveal_strlit("src");
    reveal_strlit("outputs");
    reveal_strlit("export src='");
    reveal_strlit("export outputs='");
    let first = "source '"@ + path::joined(tmp, "env.sh"@) + "'\n"@;
    assert(export_line("src"@, p) =~= "export src='"@ + p + "'\n"@);
    assert(export_line("outputs"@, outputs) =~= "export outputs='"@ + outputs + "'\n"@);
    let behind = output_lines(strmap::listing(outs)) + ("export outputs='"@ + outputs + "'\n"@);
    assert(plain_env(tmp, env, Some(p), outs, outputs).script =~= first + ("export src='"@ + p
        + "'\n"@) + behind);
    assert(plain_env(tmp, env, None, outs, outputs).script =~= first + behind);
}

/// With structured attributes a build finds the two files where its variables say, and sources the
/// second.
pub proof fn structured_attributes_are_found(
    tmp: Seq<char>,
    attrs_json: Seq<char>,
    attrs_sh: Seq<char>,
)
    ensures
        ({
            let j = path::joined(tmp, ".attrs.json"@);
            let s = path::joined(tmp, ".attrs.sh"@);
            let e = structured_env(tmp, attrs_json, attrs_sh);
            &&& e.files == seq![(j, attrs_json), (s, attrs_sh)]
            &&& text::occurs(e.script, "export NIX_ATTRS_JSON_FILE='"@ + j + "'\n"@)
            &&& text::occurs(e.script, "export NIX_ATTRS_SH_FILE='"@ + s + "'\n"@)
            &&& ("source '"@ + s + "'\n"@).is_suffix_of(e.script)
        }),
{
    reveal_strlit("export ");
    reveal_strlit("='");
    reveal_strlit("NIX_ATTRS_JSON_FILE");
    reveal_strlit("NIX_ATTRS_SH_FILE");
    reveal_strlit("export NIX_ATTRS_JSON_FILE='");
    reveal_strlit("export NIX_ATTRS_SH_FILE='");
    let j = path::joined(tmp, ".attrs.json"@);
    let s = path::joined(tmp, ".attrs.sh"@);
    let e = structured_env(tmp, attrs_json, attrs_sh);
    let l1 = "export NIX_ATTRS_JSON_FILE='"@ + j + "'\n"@;
    let l2 = "export NIX_ATTRS_SH_FILE='"@ + s + "'\n"@;
    let l3 = "source '"@ + s + "'\n"@;
    assert(export_line("NIX_ATTRS_JSON_FILE"@, j) =~= l1);
    assert(export_line("NIX_ATTRS_SH_FILE"@, s) =~= l2);
    let none = Seq::<char>::empty();
    assert(e.script =~= none + l1 + (l2 + l3));
    within(none, l1, l2 + l3);
    assert(e.script =~= l1 + l2 + l3);
    within(l1, l2, l3);
    assert(e.script.subrange(e.script.len() - l3.len(), e.script.len() as int) =~= l3);
}

/// The key under which a build is committed is that of its derivation where nothing is overridden;
/// an override mixes its hash in.
pub proof fn overrides_are_mixed_in(drv_path: Seq<char>, o: OverrideView)
    ensures
        effective(drv_path, None) == digest::blake3_hex(encode_utf8(drv_path)),
        effective(drv_path, Some(o)) == digest::blake3_hex(
            encode_utf8(drv_path) + seq![0u8] + encode_utf8(o.source_hash),
        ),
{
}

/// The store and the purity of its tools are set before `$stdenv/setup` is sourced, which comes last.
pub proof fn stdenv_is_sourced()
    ensures
        text::occurs(SETUP@, "export NIX_STORE=/nix/store\n"@),
        text::occurs(SETUP@, "export NIX_ENFORCE_PURITY=0\n"@),
        "source \"$stdenv/setup\"\n"@.is_suffix_of(SETUP@),
{
    reveal_strlit("
export NIX_STORE=/nix/store
export NIX_ENFORCE_PURITY=0
source \"$stdenv/setup\"
");
    reveal_strlit("export NIX_STORE=/nix/store\n");
    assert(SETUP@.subrange(1, 29) =~= "export NIX_STORE=/nix/store\n"@);
    assert(text::has_at(SETUP@, 1, "export NIX_STORE=/nix/store\n"@));
    reveal_strlit("export NIX_ENFORCE_PURITY=0\n");
    assert(SETUP@.subrange(29, 57) =~= "export NIX_ENFORCE_PURITY=0\n"@);
    assert(text::has_at(SETUP@, 29, "export NIX_ENFORCE_PURITY=0\n"@));
    reveal_strlit("source \"$stdenv/setup\"\n");
    assert(SETUP@.subrange(57, 80) =~= "source \"$stdenv/setup\"\n"@);
}

/// A failure of the build ends no shell: its exit code is kept, and the script ends with it.
pub proof fn exit_codes_are_handed_on()
    ensures
        text::occurs(RUN@, "set +e\ngenericBuild\nrc=$?\n"@),
        text::occurs(RUN@, "showPhaseHeader() { :; }\n"@),
        text::occurs(RUN@, "showPhaseFooter() { :; }\n"@),
        text::occurs(RUN@, "dumpVars() { :; }\n"@),
        "exit $rc\n"@.is_suffix_of(RUN@),
{
    reveal_strlit("
dumpVars() { :; }
showPhaseHeader() { :; }
showPhaseFooter() { :; }

_ms() { read _s _ < /proc/uptime; echo \"${_s/./}\"; }
_t0=$(_ms)
set +e
genericBuild
rc=$?
_t1=$(_ms)
echo \"__TIMING__ phases=$((_t1-_t0))0ms\" >&2
exit $rc
");
    reveal_strlit("set +e\ngenericBuild\nrc=$?\n");
    assert(RUN@.subrange(134, 160) =~= "set +e\ngenericBuild\nrc=$?\n"@);
    assert(text::has_at(RUN@, 134, "set +e\ngenericBuild\nrc=$?\n"@));
    reveal_strlit("showPhaseHeader() { :; }\n");
    assert(RUN@.subrange(19, 44) =~= "showPhaseHeader() { :; }\n"@);
    assert(text::has_at(RUN@, 19, "showPhaseHeader() { :; }\n"@));
    reveal_strlit("showPhaseFooter() { :; }\n");
    assert(RUN@.subrange(44, 69) =~= "showPhaseFooter() { :; }\n"@);
    assert(text::has_at(RUN@, 44, "showPhaseFooter() { :; }\n"@));
    reveal_strlit("dumpVars() { :; }\n");
    assert(RUN@.subrange(1, 19) =~= "dumpVars() { :; }\n"@);
    assert(text::has_at(RUN@, 1, "dumpVars() { :; }\n"@));
    reveal_strlit("exit $rc\n");
    assert(RUN@.subrange(216, 225) =~= "exit $rc\n"@);
}

/// The directory to build from is the one that the override names, and there is none without one.
pub proof fn overrides_name_the_source(o: OverrideView)
    ensures
        override_src(Some(o)) == o.src_path,
        override_src(None) is None,
{
}

/// An artifact goes where its key says, and its script lies where the unit is built and holds what
/// the backend adds.
pub proof fn artifacts_go_by_their_key(
    ctx: ContextView,
    name: Seq<char>,
    hooks: HooksView,
    env: EnvView,
    ov: Option<OverrideView>,
)
    ensures
        ({
            let b = build_of(ctx, name, hooks, env, ov);
            &&& b.name == name
            &&& b.dest == cache::artifact_path(ctx.root, effective(ctx.drv_path, ov))
            &&& b.tmp == ctx.tmp
            &&& b.hooks == hooks
            &&& b.files == env.files
            &&& b.script.0 == path::joined(ctx.tmp, "builder.sh"@)
            &&& env.script.is_prefix_of(b.script.1)
            &&& (hooks.lines + RUN@).is_suffix_of(b.script.1)
        }),
{
    let b = build_of(ctx, name, hooks, env, ov);
    let s = b.script.1;
    assert(s.subrange(0, env.script.len() as int) =~= env.script);
    let t = hooks.lines + RUN@;
    assert(s.subrange(s.len() - t.len(), s.len() as int) =~= t);
}

/// Without structured attributes every variable of the derivation that bash can name reaches the
/// build, with what lies elsewhere put in place of store paths.
pub proof fn variables_reach_the_build(
    d: DrvView,
    tmp: Seq<char>,
    rw: Seq<(Seq<char>, Seq<char>)>,
    src: Option<Seq<char>>,
    k: Seq<char>,
)
    requires
        d.env.dom().finite(),
        d.env.contains_key(k),
        attrs::bash_ident(k),
    ensures
        ({
            let e = unit_env_of(d, false, tmp, rw, src);
            &&& e is Ok
            &&& e->Ok_0.files.len() == 1
            &&& text::occurs(
                e->Ok_0.files[0].1,
                "export "@ + k + "=$'"@ + attrs::dollar_escaped(rewrite::rewritten(rw, d.env[k]))
                    + "'\n"@,
            )
        }),
{
    let env = d.env.map_values(|v: Seq<char>| rewrite::rewritten(rw, v));
    assert(env.dom() =~= d.env.dom());
    a_variable_is_exported(env, k);
}

/// A variable among others is exported.
pub proof fn a_variable_is_exported(env: Map<Seq<char>, Seq<char>>, k: Seq<char>)
    requires
        env.dom().finite(),
        env.contains_key(k),
        attrs::bash_ident(k),
    ensures
        text::occurs(
            env_lines(strmap::listing(env)),
            "export "@ + k + "=$'"@ + attrs::dollar_escaped(env[k]) + "'\n"@,
        ),
{
    let l = strmap::listing(env);
    sorting::finite_map_is_listed(env);
    assert(strmap::has_key(l, k));
    let i = choose|i: int| 0 <= i < l.len() && l[i].0 == k;
    assert(l[i].1 == env[k]) by {
        strmap::ascending_index(l, i);
    }
    variables_are_exported(l, i);
}

/// A unit that is said to have structured attributes and has none is refused.
pub proof fn missing_attributes_are_refused(
    d: DrvView,
    tmp: Seq<char>,
    rw: Seq<(Seq<char>, Seq<char>)>,
    src: Option<Seq<char>>,
)
    requires
        !d.env.contains_key("__json"@),
    ensures
        unit_env_of(d, true, tmp, rw, src) is Err,
{
}

/// The builder is told the names of its outputs as the derivation has them, or that there is `out`
/// where the derivation has none.
pub proof fn output_names_are_told(d: DrvView)
    ensures
        d.env.contains_key("outputs"@) ==> outputs_var(d) == d.env["outputs"@],
        !d.env.contains_key("outputs"@) ==> outputs_var(d) == seq!['o', 'u', 't'],
{
    reveal_strlit("out");
    assert("out"@ =~= seq!['o', 'u', 't']);
}

/// A build fails where its script did, and where the backend finds nothing usable.
pub proof fn both_tell_of_success<B: Backend>(
    exit_code: i32,
    backend: &B,
    names: &StrMap<OutputNames>,
    drv: &Derivation,
    r: bool,
)
    requires
        call_ensures(build_succeeded::<B>, (exit_code, backend, names, drv), r),
    ensures
        exit_code != 0 ==> !r,
        !backend.left_something(names@, drv.deep_view()) ==> !r,
        exit_code == 0 && backend.left_something(names@, drv.deep_view()) ==> r,
{
}

/// Every output is committed, and so are early artifacts. These stay where the unit was built, and
/// nothing else does but the mark of completion.
pub proof fn outputs_are_committed(
    outs: &StrMap<String>,
    r: Vec<String>,
    name: &str,
    b: bool,
)
    requires
        outs@.dom().finite(),
        call_ensures(committed_dirs, (outs,), r),
        call_ensures(stays, (name, outs), b),
    ensures
        r.deep_view().contains(name@) ==> b,
        outs@.contains_key(name@) ==> r.deep_view().contains(name@),
        name@ == "rmeta"@ ==> r.deep_view().contains(name@),
        name@ == "done"@ ==> b,
        b ==> r.deep_view().contains(name@) || name@ == "done"@,
{
    let l = strmap::listing(outs@);
    let ks = strmap::keys_of(l);
    sorting::finite_map_is_listed(outs@);
    assert(r.deep_view() == ks.push("rmeta"@));
    if outs@.contains_key(name@) {
        assert(strmap::has_key(l, name@));
        let i = choose|i: int| 0 <= i < l.len() && l[i].0 == name@;
        assert(ks.push("rmeta"@)[i] == name@);
    }
    if name@ == "rmeta"@ {
        assert(ks.push("rmeta"@)[ks.len() as int] == name@);
    }
    if r.deep_view().contains(name@) {
        let i = r.deep_view().index_of(name@);
        if i < ks.len() {
            assert(strmap::has_key(l, l[i].0));
            assert(strmap::as_map(l).contains_key(l[i].0));
        }
    }
}

/// A unit is replayed below `build`, under the key of its derivation.
pub proof fn units_are_replayed_below_build(root: Seq<char>, drv_path: Seq<char>)
    requires
        root.len() > 0,
        root.last() != '/',
        !cache::drv_key(drv_path).contains('/'),
    ensures
        work_place(root, drv_path) == root + seq!['/', 'b', 'u', 'i', 'l', 'd', '/']
            + cache::drv_key(drv_path),
{
    reveal_strlit("build");
    let k = cache::drv_key(drv_path);
    if k.len() > 0 {
        assert(k.contains(k[0]));
    }
    path::joining_goes_below(root, "build"@);
    path::joining_goes_below(path::joined(root, "build"@), k);
    assert(path::joined(root, "build"@) =~= root + seq!['/', 'b', 'u', 'i', 'l', 'd']);
    assert(work_place(root, drv_path) =~= root + seq!['/', 'b', 'u', 'i', 'l', 'd', '/'] + k);
}

/// Every output of a dependency whose place is known is put in place of its path in the store.
pub proof fn known_places_are_substituted(
    drv: &Derivation,
    places: &StrMap<String>,
    r: PathRewriter,
    p: Seq<char>,
)
    requires
        call_ensures(make_rewriter, (drv, places), r),
        places@.dom().finite(),
    ensures
        places@.contains_key(p) ==> r@.contains((p, places@[p])),
        forall|i: int|
            0 <= i < r@.len() ==> places@.contains_key((#[trigger] r@[i]).0) && places@[r@[i].0]
                == r@[i].1,
{
    let l = strmap::listing(places@);
    sorting::finite_map_is_listed(places@);
    assert forall|i: int| 0 <= i < l.len() implies places@.contains_key((#[trigger] l[i]).0)
        && places@[l[i].0] == l[i].1 by {
        strmap::ascending_index(l, i);
        assert(strmap::has_key(l, l[i].0));
        assert(strmap::as_map(l).contains_key(l[i].0));
    }
    if places@.contains_key(p) {
        assert(strmap::has_key(l, p));
        let i = choose|i: int| 0 <= i < l.len() && l[i].0 == p;
        assert(l[i] == (p, places@[p]));
    }
}

} // verus!
