//! Replay of a single Rust crate, with the outputs `out` and `lib`, whose compiler signals early
//! metadata.
//!
//! This is the replay of [`executor`](crate::executor) for crates alone: it needs no backend, and
//! it may point the paths of dependencies that are still being built at their early metadata.
use crate::attrs;
use crate::cache;
use crate::cache::ArtifactCache;
use crate::drv::{Derivation, DrvView};
use crate::executor;
use crate::executor::{EnvView, OverrideView, SourceOverride, TextFile, UnitEnv};
use crate::json;
use crate::json::{JsonNode, JsonTree};
use crate::overrides;
use crate::path;
use crate::rewrite;
use crate::rewrite::PathRewriter;
use crate::rust_hooks;
use crate::rust_pipeline;
use crate::strmap;
use crate::strmap::StrMap;
use crate::text;
use vstd::prelude::*;

verus! {

/// How a crate takes part in pipelining.
pub struct PipelineConfig {
    /// The file name of the crate's own metadata. Metadata of other names, as probes write it,
    /// signals nothing.
    pub expected_rmeta: String,
    /// Whether the link pass is skipped: only a target needs what it makes.
    pub skip_link_pass: bool,
    /// Substitutions behind all others: the library of a dependency that is still being built
    /// becomes its early metadata.
    pub rmeta_rewrites: Vec<(String, String)>,
}

/// What a [`PipelineConfig`] holds.
#[verifier::ext_equal]
pub struct ConfigView {
    pub expected_rmeta: Seq<char>,
    pub skip_link_pass: bool,
    pub rmeta_rewrites: Seq<(Seq<char>, Seq<char>)>,
}

impl DeepView for PipelineConfig {
    type V = ConfigView;

    open spec fn deep_view(&self) -> ConfigView {
        ConfigView {
            expected_rmeta: self.expected_rmeta@,
            skip_link_pass: self.skip_link_pass,
            rmeta_rewrites: self.rmeta_rewrites.deep_view(),
        }
    }
}

/// The bash text of a scalar: a string quoted, a number as it is, `1` or nothing for a boolean,
/// nothing for null. Other values have none.
pub open spec fn scalar_text(t: JsonTree) -> Option<Seq<char>> {
    match t {
        JsonTree::Str(s) => Some(attrs::sh_escaped(s)),
        JsonTree::Int(i) => Some(text::signed_decimal(i)),
        JsonTree::Float(s) => Some(s),
        JsonTree::Bool(b) => Some(if b { "1"@ } else { Seq::empty() }),
        JsonTree::Null => Some(Seq::empty()),
        _ => None,
    }
}

/// The items of an array of strings, quoted.
pub open spec fn string_items(a: Seq<JsonTree>) -> Option<Seq<Seq<char>>> {
    if forall|i: int| 0 <= i < a.len() ==> (#[trigger] a[i]) is Str {
        Some(Seq::new(a.len(), |i: int| attrs::sh_escaped(a[i]->Str_0)))
    } else {
        None
    }
}

/// The bash text of a member: `[key]=value`.
pub open spec fn string_member(k: Seq<char>, v: Seq<char>) -> Seq<char> {
    "["@ + k + "]="@ + attrs::sh_escaped(v)
}

/// The bash texts of the members whose names are identifiers.
pub open spec fn named_members(o: Seq<(Seq<char>, JsonTree)>) -> Seq<Seq<char>>
    decreases o.len(),
{
    if o.len() == 0 {
        Seq::empty()
    } else if attrs::bash_ident(o.last().0) {
        named_members(o.drop_last()).push(string_member(o.last().0, o.last().1->Str_0))
    } else {
        named_members(o.drop_last())
    }
}

/// The members of an object of strings, as bash text.
pub open spec fn string_members(o: Seq<(Seq<char>, JsonTree)>) -> Option<Seq<Seq<char>>> {
    if forall|i: int| 0 <= i < o.len() ==> (#[trigger] o[i]).1 is Str {
        Some(named_members(o))
    } else {
        None
    }
}

/// The declaration of one attribute: a scalar, an array of strings or an associative array of
/// strings, or nothing where the name is no identifier or the value none of these.
pub open spec fn declared_line(k: Seq<char>, t: JsonTree) -> Seq<char> {
    if !attrs::bash_ident(k) {
        Seq::empty()
    } else {
        match scalar_text(t) {
            Some(s) => "declare -- "@ + k + "="@ + s + "\n"@,
            None => match t {
                JsonTree::Arr(a) => match string_items(a) {
                    Some(items) => "declare -a "@ + k + "=("@ + text::joined(items, " "@) + ")\n"@,
                    None => Seq::empty(),
                },
                JsonTree::Obj(o) => match string_members(o) {
                    Some(items) => "declare -A "@ + k + "=("@ + text::joined(items, " "@) + ")\n"@,
                    None => Seq::empty(),
                },
                _ => Seq::empty(),
            },
        }
    }
}

/// The declarations of the members of an object, in order.
pub open spec fn declared_lines(o: Seq<(Seq<char>, JsonTree)>) -> Seq<char>
    decreases o.len(),
{
    if o.len() == 0 {
        Seq::empty()
    } else {
        declared_lines(o.drop_last()) + declared_line(o.last().0, o.last().1)
    }
}

/// The declarations of structured attributes; a value that is no object has none.
pub open spec fn declared_attrs(t: JsonTree) -> Seq<char> {
    match t {
        JsonTree::Obj(o) => declared_lines(o),
        _ => Seq::empty(),
    }
}

fn scalar_to_sh(v: &serde_json::Value) -> (r: Option<String>)
    ensures
        match r {
            Some(s) => scalar_text(json::json_tree(*v)) == Some(s@),
            None => scalar_text(json::json_tree(*v)) is None,
        },
{
    match json::node_of(v) {
        JsonNode::Str(s) => Some(attrs::sh_escape(s.as_str())),
        JsonNode::Int(i) => Some(text::i64_text(i)),
        JsonNode::UInt(u) => Some(text::u64_text(u)),
        JsonNode::Float(s) => Some(s),
        JsonNode::Bool(b) => Some(if b { "1".to_owned() } else { String::new() }),
        JsonNode::Null => Some(String::new()),
        _ => None,
    }
}

fn string_items_to_sh(a: &Vec<serde_json::Value>) -> (r: Option<Vec<String>>)
    ensures
        match r {
            Some(v) => string_items(json::trees(a@)) == Some(v.deep_view()),
            None => string_items(json::trees(a@)) is None,
        },
{
    let mut out: Vec<String> = Vec::new();
    let ghost t = json::trees(a@);
    for i in 0..a.len()
        invariant
            t == json::trees(a@),
            out@.len() == i,
            forall|j: int|
                0 <= j < i ==> (#[trigger] t[j]) is Str && out@[j]@ == attrs::sh_escaped(
                    t[j]->Str_0,
                ),
    {
        match json::node_of(&a[i]) {
            JsonNode::Str(s) => {
                out.push(attrs::sh_escape(s.as_str()));
            },
            _ => {
                assert(!(t[i as int] is Str));
                return None;
            },
        }
    }
    assert(out.deep_view() =~= Seq::new(t.len(), |i: int| attrs::sh_escaped(t[i]->Str_0)));
    Some(out)
}

fn string_members_to_sh(o: &Vec<(String, serde_json::Value)>) -> (r: Option<Vec<String>>)
    ensures
        match r {
            Some(v) => string_members(json::members(o@)) == Some(v.deep_view()),
            None => string_members(json::members(o@)) is None,
        },
{
    let mut out: Vec<String> = Vec::new();
    let ghost m = json::members(o@);
    assert(out.deep_view() =~= named_members(m.take(0)));
    for i in 0..o.len()
        invariant
            m == json::members(o@),
            forall|j: int| 0 <= j < i ==> (#[trigger] m[j]).1 is Str,
            out.deep_view() == named_members(m.take(i as int)),
    {
        match json::node_of(&o[i].1) {
            JsonNode::Str(s) => {
                proof {
                    assert(m.take(i + 1).drop_last() =~= m.take(i as int));
                    assert(m[i as int].1 == JsonTree::Str(s@));
                }
                if attrs::is_valid_bash_ident(o[i].0.as_str()) {
                    let mut e = "[".to_owned();
                    e.append(o[i].0.as_str());
                    e.append("]=");
                    e.append(attrs::sh_escape(s.as_str()).as_str());
                    let ghost before = out.deep_view();
                    out.push(e);
                    assert(out.deep_view() =~= before.push(e@));
                }
            },
            _ => {
                assert(!(m[i as int].1 is Str));
                return None;
            },
        }
    }
    assert(m.take(m.len() as int) =~= m);
    Some(out)
}

fn declaration(flag: &str, k: &str, items: &Vec<String>) -> (r: String)
    ensures
        r@ == flag@ + k@ + "=("@ + text::joined(items.deep_view(), " "@) + ")\n"@,
{
    let mut s = flag.to_owned();
    s.append(k);
    s.append("=(");
    s.append(text::join(items, " ").as_str());
    s.append(")\n");
    s
}

fn declare(k: &str, v: &serde_json::Value) -> (r: String)
    ensures
        r@ == declared_line(k@, json::json_tree(*v)),
{
    if !attrs::is_valid_bash_ident(k) {
        return String::new();
    }
    match scalar_to_sh(v) {
        Some(t) => {
            let mut s = "declare -- ".to_owned();
            s.append(k);
            s.append("=");
            s.append(t.as_str());
            s.append("\n");
            s
        },
        None => match json::node_of(v) {
            JsonNode::Arr(a) => match string_items_to_sh(&a) {
                Some(items) => declaration("declare -a ", k, &items),
                None => String::new(),
            },
            JsonNode::Obj(o) => match string_members_to_sh(&o) {
                Some(items) => declaration("declare -A ", k, &items),
                None => String::new(),
            },
            _ => String::new(),
        },
    }
}

/// Renders the structured attributes of a crate as bash declarations.
pub fn json_to_attrs_sh(val: &serde_json::Value) -> (r: String)
    ensures
        r@ == declared_attrs(json::json_tree(*val)),
{
    match json::node_of(val) {
        JsonNode::Obj(o) => {
            let mut out = String::new();
            let ghost m = json::members(o@);
            for i in 0..o.len()
                invariant
                    m == json::members(o@),
                    out@ == declared_lines(m.take(i as int)),
            {
                out.append(declare(o[i].0.as_str(), &o[i].1).as_str());
                proof {
                    assert(m.take(i + 1).drop_last() =~= m.take(i as int));
                }
            }
            assert(m.take(m.len() as int) =~= m);
            out
        },
        _ => String::new(),
    }
}

fn apply_rewrites(rw: &Vec<(String, String)>, s: &str) -> (r: String)
    ensures
        r@ == rewrite::rewritten(rw.deep_view(), s@),
{
    let ghost ps = rw.deep_view();
    let mut out = s.to_owned();
    assert(ps.take(0) =~= Seq::empty());
    for i in 0..rw.len()
        invariant
            ps == rw.deep_view(),
            out@ == rewrite::rewritten(ps.take(i as int), s@),
    {
        assert(ps.take(i + 1).drop_last() =~= ps.take(i as int));
        assert(ps[i as int] == rw@[i as int].deep_view());
        out = text::replace(out.as_str(), rw[i].0.as_str(), rw[i].1.as_str());
    }
    assert(ps.take(ps.len() as int) =~= ps);
    out
}

/// The places of the two outputs of a crate.
pub open spec fn crate_outputs(tmp: Seq<char>) -> Map<Seq<char>, Seq<char>> {
    Map::empty().insert("out"@, path::joined(tmp, "out"@)).insert("lib"@, path::joined(tmp, "lib"@))
}

/// The environment of a crate without structured attributes, whose variables are given.
pub open spec fn crate_plain_env(
    tmp: Seq<char>,
    env: Map<Seq<char>, Seq<char>>,
    src: Option<Seq<char>>,
    outputs: Seq<char>,
) -> EnvView {
    let env_path = path::joined(tmp, "env.sh"@);
    EnvView {
        files: seq![(env_path, executor::env_lines(strmap::listing(env)))],
        script: "source '"@ + env_path + "'\n"@ + (match src {
            Some(p) => executor::export_line("src"@, p),
            None => Seq::empty(),
        }) + executor::export_line("out"@, path::joined(tmp, "out"@)) + executor::export_line(
            "lib"@,
            path::joined(tmp, "lib"@),
        ) + executor::export_line("outputs"@, outputs),
    }
}

/// The environment of a crate. One with structured attributes must have them, and they must be
/// JSON behind all substitutions.
pub open spec fn crate_env_of(
    d: DrvView,
    structured: bool,
    tmp: Seq<char>,
    rw: Seq<(Seq<char>, Seq<char>)>,
    rmeta: Seq<(Seq<char>, Seq<char>)>,
    src: Option<Seq<char>>,
) -> Result<EnvView, Seq<char>> {
    if structured {
        match overrides::value_at(d.env, "__json"@) {
            None => Err("structuredAttrs drv missing __json"@),
            Some(j) => {
                let t = rewrite::rewritten(
                    rmeta,
                    attrs::rewritten_attrs_text(j, crate_outputs(tmp), rw, src),
                );
                match json::json_parsed(t) {
                    Err(e) => Err("parsing __json: "@ + e),
                    Ok(v) => Ok(executor::structured_env(tmp, t, declared_attrs(v))),
                }
            },
        }
    } else {
        Ok(
            crate_plain_env(
                tmp,
                d.env.map_values(
                    |v: Seq<char>| rewrite::rewritten(rmeta, rewrite::rewritten(rw, v)),
                ),
                src,
                executor::outputs_var(d),
            ),
        )
    }
}

fn make_crate_plain_env(
    tmp: &str,
    env: &StrMap<String>,
    src: Option<&str>,
    outputs: &str,
) -> (r: UnitEnv)
    ensures
        r.deep_view() == crate_plain_env(
            tmp@,
            env@,
            match src {
                Some(p) => Some(p@),
                None => None,
            },
            outputs@,
        ),
{
    let env_path = path::join(tmp, "env.sh");
    let mut script = "source '".to_owned();
    script.append(env_path.as_str());
    script.append("'\n");
    match src {
        Some(p) => {
            executor::push_export(&mut script, "src", p);
        },
        None => {},
    }
    executor::push_export(&mut script, "out", path::join(tmp, "out").as_str());
    executor::push_export(&mut script, "lib", path::join(tmp, "lib").as_str());
    executor::push_export(&mut script, "outputs", outputs);
    let mut files: Vec<TextFile> = Vec::new();
    files.push(TextFile { path: env_path, text: executor::env_text(env) });
    let r = UnitEnv { files, script };
    proof {
        let e = crate_plain_env(
            tmp@,
            env@,
            match src {
                Some(p) => Some(p@),
                None => None,
            },
            outputs@,
        );
        assert(r.deep_view().files =~= e.files);
        assert(r.deep_view().script =~= e.script);
    }
    r
}

fn rewritten_env(
    env: &StrMap<String>,
    rewriter: &PathRewriter,
    rmeta: &Vec<(String, String)>,
) -> (r: StrMap<String>)
    ensures
        r@ == env@.map_values(
            |v: Seq<char>| rewrite::rewritten(rmeta.deep_view(), rewrite::rewritten(rewriter@, v)),
        ),
{
    let mut out: StrMap<String> = StrMap::new();
    let n: usize = env.len();
    let ghost all = strmap::listing(env@);
    let ghost f = |v: Seq<char>|
        rewrite::rewritten(rmeta.deep_view(), rewrite::rewritten(rewriter@, v));
    for i in 0..n
        invariant
            n == all.len(),
            all == strmap::listing(env@),
            strmap::ascending(all),
            f == (|v: Seq<char>|
                rewrite::rewritten(rmeta.deep_view(), rewrite::rewritten(rewriter@, v))),
            out@ == strmap::as_map(all.take(i as int)).map_values(f),
    {
        let v = rewriter.rewrite(env.value(i).as_str());
        out.insert(env.key(i).clone(), apply_rewrites(rmeta, v.as_str()));
        proof {
            strmap::take_map(all, i as int);
            assert(out@ =~= strmap::as_map(all.take(i + 1)).map_values(f));
        }
    }
    assert(all.take(n as int) =~= all);
    out
}

/// Gives the environment of a crate that is built in `tmp`.
pub fn crate_env(
    drv: &Derivation,
    structured: bool,
    tmp: &str,
    rewriter: &PathRewriter,
    rmeta: &Vec<(String, String)>,
    src: Option<&str>,
) -> (r: Result<UnitEnv, String>)
    ensures
        ({
            let want = crate_env_of(
                drv.deep_view(),
                structured,
                tmp@,
                rewriter@,
                rmeta.deep_view(),
                match src {
                    Some(p) => Some(p@),
                    None => None,
                },
            );
            match r {
                Ok(e) => want == Ok::<EnvView, Seq<char>>(e.deep_view()),
                Err(m) => want == Err::<EnvView, Seq<char>>(m@),
            }
        }),
{
    if structured {
        match drv.env.get("__json") {
            None => Err("structuredAttrs drv missing __json".to_owned()),
            Some(j) => {
                let mut outs: StrMap<String> = StrMap::new();
                outs.insert("out".to_owned(), path::join(tmp, "out"));
                outs.insert("lib".to_owned(), path::join(tmp, "lib"));
                let t = attrs::rewrite_structured_attrs_json(j.as_str(), &outs, rewriter, src);
                let t = apply_rewrites(rmeta, t.as_str());
                match json::parse_json(t.as_str()) {
                    Err(e) => {
                        let mut m = "parsing __json: ".to_owned();
                        m.append(e.as_str());
                        Err(m)
                    },
                    Ok(v) => {
                        let sh = json_to_attrs_sh(&v);
                        Ok(executor::make_structured_env(tmp, t, sh))
                    },
                }
            },
        }
    } else {
        let env = rewritten_env(&drv.env, rewriter, rmeta);
        let outputs = executor::outputs_of(drv);
        Ok(make_crate_plain_env(tmp, &env, src, outputs.as_str()))
    }
}

/// The build script of a crate: its environment, incremental compilation, the working directory,
/// `$stdenv/setup`, the shim in front of the compiler, and the build.
pub open spec fn crate_script(
    env: Seq<char>,
    inc: Seq<char>,
    work: Seq<char>,
    tmp: Seq<char>,
    pl: ConfigView,
) -> Seq<char> {
    env + rust_hooks::incremental_line(inc) + executor::work_lines(work) + executor::SETUP@
        + rust_hooks::shim_lines(tmp, pl.expected_rmeta, pl.skip_link_pass) + executor::RUN@
}

/// What is decided about the build of a crate before it runs.
pub struct CrateBuild {
    /// How the crate is shown.
    pub name: String,
    /// Where the artifact goes. What lies there from before is stale.
    pub dest: String,
    /// Where the crate is built, and the directory in it that dependents walk early.
    pub tmp: String,
    pub early_lib: String,
    /// What the compiler keeps.
    pub inc_dir: String,
    /// Where the crate is replayed; it is emptied before.
    pub work_dir: String,
    /// The shim in front of the compiler.
    pub shim: TextFile,
    /// The files with the environment of the crate.
    pub files: Vec<TextFile>,
    /// The build script.
    pub script: TextFile,
}

/// What a [`CrateBuild`] holds.
#[verifier::ext_equal]
pub struct CrateView {
    pub name: Seq<char>,
    pub dest: Seq<char>,
    pub tmp: Seq<char>,
    pub early_lib: Seq<char>,
    pub inc_dir: Seq<char>,
    pub work_dir: Seq<char>,
    pub shim: (Seq<char>, Seq<char>),
    pub files: Seq<(Seq<char>, Seq<char>)>,
    pub script: (Seq<char>, Seq<char>),
}

impl DeepView for CrateBuild {
    type V = CrateView;

    open spec fn deep_view(&self) -> CrateView {
        CrateView {
            name: self.name@,
            dest: self.dest@,
            tmp: self.tmp@,
            early_lib: self.early_lib@,
            inc_dir: self.inc_dir@,
            work_dir: self.work_dir@,
            shim: self.shim.deep_view(),
            files: self.files.deep_view(),
            script: self.script.deep_view(),
        }
    }
}

/// The build of a crate in the environment `env`.
pub open spec fn crate_build_of(
    drv_path: Seq<char>,
    d: DrvView,
    root: Seq<char>,
    exe: Seq<char>,
    env: EnvView,
    ov: Option<OverrideView>,
    pl: ConfigView,
) -> CrateView {
    let tmp = cache::tmp_place(root, drv_path);
    let inc = cache::incremental_place(root, drv_path);
    let work = executor::work_place(root, drv_path);
    CrateView {
        name: match overrides::value_at(d.env, "crateName"@) {
            Some(n) => n,
            None => "unknown"@,
        },
        dest: cache::artifact_path(root, executor::effective(drv_path, ov)),
        tmp,
        early_lib: rust_hooks::early_lib(tmp),
        inc_dir: inc,
        work_dir: work,
        shim: rust_hooks::shim_of(tmp, exe),
        files: env.files,
        script: (
            path::joined(tmp, "builder.sh"@),
            crate_script(env.script, inc, work, tmp, pl),
        ),
    }
}

/// Decides about the build of a crate, up to the script that a worker runs.
pub fn build_crate_with_worker_signaled(
    drv_path: &str,
    drv: &Derivation,
    structured: bool,
    cache: &ArtifactCache,
    rewriter: &PathRewriter,
    self_exe: &str,
    src_override: Option<&SourceOverride>,
    pl: &PipelineConfig,
) -> (r: Result<CrateBuild, String>)
    ensures
        ({
            let ov = match src_override {
                Some(o) => Some(o.deep_view()),
                None => None,
            };
            let env = crate_env_of(
                drv.deep_view(),
                structured,
                cache::tmp_place(cache@, drv_path@),
                rewriter@,
                pl.deep_view().rmeta_rewrites,
                executor::override_src(ov),
            );
            match r {
                Ok(b) => env matches Ok(e) && b.deep_view() == crate_build_of(
                    drv_path@,
                    drv.deep_view(),
                    cache@,
                    self_exe@,
                    e,
                    ov,
                    pl.deep_view(),
                ),
                Err(m) => env == Err::<EnvView, Seq<char>>(m@),
            }
        }),
{
    let key = executor::effective_key(drv_path, src_override);
    let name = match drv.env.get("crateName") {
        Some(n) => n.clone(),
        None => "unknown".to_owned(),
    };
    let tmp = cache.tmp_dir(drv_path);
    let src = match src_override {
        Some(o) => match &o.src_path {
            Some(p) => Some(p.as_str()),
            None => None,
        },
        None => None,
    };
    let env = match crate_env(drv, structured, tmp.as_str(), rewriter, &pl.rmeta_rewrites, src) {
        Err(m) => {
            return Err(m);
        },
        Ok(env) => env,
    };
    let inc_dir = cache.incremental_dir(drv_path);
    let work_dir = executor::work_dir(cache, drv_path);
    let mut text = env.script.clone();
    text.append(rust_hooks::incremental_text(inc_dir.as_str()).as_str());
    executor::push_work(&mut text, work_dir.as_str());
    text.append(executor::SETUP);
    text.append(
        rust_hooks::shim_config(
            tmp.as_str(),
            pl.expected_rmeta.as_str(),
            pl.skip_link_pass,
        ).as_str(),
    );
    text.append(executor::RUN);
    Ok(
        CrateBuild {
            name,
            dest: cache.artifact_dir_by_key(key.as_str()),
            early_lib: path::join(path::join(tmp.as_str(), "lib").as_str(), "lib"),
            inc_dir,
            work_dir,
            shim: rust_hooks::shim(tmp.as_str(), self_exe),
            files: env.files,
            script: TextFile { path: path::join(tmp.as_str(), "builder.sh"), text },
            tmp,
        },
    )
}

/// Whether the build of a crate succeeded, given the names in the `lib` of its output `lib` and in
/// the `bin` of its output `out`: its script did, and there is a library or a program.
pub fn crate_succeeded(exit_code: i32, lib_names: &Vec<String>, bin_names: &Vec<String>) -> (r: bool)
    ensures
        r == (exit_code == 0 && (rust_pipeline::some_end_so(
            lib_names.deep_view(),
            ".rlib"@,
            ".so"@,
            ".a"@,
        ) || bin_names@.len() > 0)),
        exit_code != 0 ==> !r,
        exit_code == 0 && bin_names@.len() > 0 ==> r,
        exit_code == 0 ==> (r <==> bin_names@.len() > 0 || exists|i: int|
            0 <= i < lib_names@.len() && (".rlib"@.is_suffix_of(
                #[trigger] lib_names.deep_view()[i],
            ) || ".so"@.is_suffix_of(lib_names.deep_view()[i]) || ".a"@.is_suffix_of(
                lib_names.deep_view()[i],
            ))),
{
    exit_code == 0 && (rust_pipeline::any_ends(lib_names, ".rlib", ".so", ".a") || bin_names.len()
        > 0)
}

/// Whether an entry of the place where a crate was built is removed after a successful build.
pub fn is_scratch(name: &str) -> (r: bool)
    ensures
        r == (name@ == "rustc-wrap"@ || name@ == "builder.sh"@ || name@ == "env.sh"@ || name@
            == ".attrs.sh"@ || name@ == ".attrs.json"@ || name@ == "worker-stdout"@ || name@
            == "worker-stderr"@),
{
    text::str_eq(name, "rustc-wrap") || text::str_eq(name, "builder.sh") || text::str_eq(
        name,
        "env.sh",
    ) || text::str_eq(name, ".attrs.sh") || text::str_eq(name, ".attrs.json") || text::str_eq(
        name,
        "worker-stdout",
    ) || text::str_eq(name, "worker-stderr")
}

/// The shell reads the text of a string as that string, that of `true` as `1`, and that of `false`
/// and of null as the empty value; a number stands as it is written.
pub proof fn scalars_read_back(t: JsonTree)
    ensures
        t is Arr || t is Obj <==> scalar_text(t) is None,
        t matches JsonTree::Str(s) ==> attrs::sh_value(scalar_text(t)->Some_0) == Some(s),
        t == JsonTree::Bool(true) ==> attrs::sh_value(scalar_text(t)->Some_0) == Some(seq!['1']),
        t == JsonTree::Bool(false) ==> attrs::sh_value(scalar_text(t)->Some_0) == Some(
            Seq::<char>::empty(),
        ),
        t is Null ==> attrs::sh_value(scalar_text(t)->Some_0) == Some(Seq::<char>::empty()),
        t is Int ==> scalar_text(t) == attrs::simple_text(t),
        t matches JsonTree::Float(w) ==> scalar_text(t) == Some(w),
{
    attrs::simple_values_read_back(t);
}

/// Without structured attributes a crate sources its variables first. Its source is then replaced
/// exactly where an override names one, and its two outputs and their names are put right.
pub proof fn overridden_crate_source_is_exported(
    tmp: Seq<char>,
    env: Map<Seq<char>, Seq<char>>,
    p: Seq<char>,
    outputs: Seq<char>,
)
    ensures
        ({
            let first = "source '"@ + path::joined(tmp, "env.sh"@) + "'\n"@;
            let behind = ("export out='"@ + path::joined(tmp, "out"@) + "'\n"@) + ("export lib='"@
                + path::joined(tmp, "lib"@) + "'\n"@) + ("export outputs='"@ + outputs + "'\n"@);
            let with = crate_plain_env(tmp, env, Some(p), outputs);
            let without = crate_plain_env(tmp, env, None, outputs);
            &&& with.script == first + ("export src='"@ + p + "'\n"@) + behind
            &&& without.script == first + behind
            &&& with.files == without.files
            &&& with.files == seq![
                (path::joined(tmp, "env.sh"@), executor::env_lines(strmap::listing(env))),
            ]
        }),
{
    crate_exports(path::joined(tmp, "out"@), path::joined(tmp, "lib"@), p, outputs);
    let first = "source '"@ + path::joined(tmp, "env.sh"@) + "'\n"@;
    let l0 = "export src='"@ + p + "'\n"@;
    let l1 = "export out='"@ + path::joined(tmp, "out"@) + "'\n"@;
    let l2 = "export lib='"@ + path::joined(tmp, "lib"@) + "'\n"@;
    let l3 = "export outputs='"@ + outputs + "'\n"@;
    let with = crate_plain_env(tmp, env, Some(p), outputs).script;
    let without = crate_plain_env(tmp, env, None, outputs).script;
    assert(with =~= first + l0 + (l1 + l2 + l3));
    assert(without =~= first + (l1 + l2 + l3));
}

proof fn crate_exports(out: Seq<char>, lib: Seq<char>, p: Seq<char>, outputs: Seq<char>)
    ensures
        executor::export_line("src"@, p) == "export src='"@ + p + "'\n"@,
        executor::export_line("out"@, out) == "export out='"@ + out + "'\n"@,
        executor::export_line("lib"@, lib) == "export lib='"@ + lib + "'\n"@,
        executor::export_line("outputs"@, outputs) == "export outputs='"@ + outputs + "'\n"@,
{
    reveal_strlit("export ");
    reveal_strlit("='");
    reveal_strlit("src");
    reveal_strlit("out");
    reveal_strlit("lib");
    reveal_strlit("outputs");
    reveal_strlit("export src='");
    reveal_strlit("export out='");
    reveal_strlit("export lib='");
    reveal_strlit("export outputs='");
    assert(executor::export_line("src"@, p) =~= "export src='"@ + p + "'\n"@);
    assert(executor::export_line("out"@, out) =~= "export out='"@ + out + "'\n"@);
    assert(executor::export_line("lib"@, lib) =~= "export lib='"@ + lib + "'\n"@);
    assert(executor::export_line("outputs"@, outputs) =~= "export outputs='"@ + outputs + "'\n"@);
}

/// A crate has two outputs, each in the directory of its name where the crate is built.
pub proof fn crates_have_two_outputs(tmp: Seq<char>, o: Seq<char>)
    ensures
        crate_outputs(tmp).contains_key(o) <==> (o == seq!['o', 'u', 't'] || o == seq![
            'l',
            'i',
            'b',
        ]),
        crate_outputs(tmp).contains_key(o) ==> crate_outputs(tmp)[o] == path::joined(tmp, o),
{
    reveal_strlit("out");
    reveal_strlit("lib");
    assert("out"@ =~= seq!['o', 'u', 't']);
    assert("lib"@ =~= seq!['l', 'i', 'b']);
    assert("out"@[0] != "lib"@[0]);
}

/// The script of a crate takes in the environment, turns on incremental compilation, goes to its
/// directory, sources `$stdenv/setup`, puts the shim in front of the compiler, and at last runs the
/// build. The shim waits for the metadata that the configuration names and skips the link pass where
/// the configuration says so.
pub proof fn crate_scripts_run_in_order(
    env: Seq<char>,
    inc: Seq<char>,
    work: Seq<char>,
    tmp: Seq<char>,
    pl: ConfigView,
)
    ensures
        ({
            let s = crate_script(env, inc, work, tmp, pl);
            let shim = rust_hooks::shim_lines(tmp, pl.expected_rmeta, pl.skip_link_pass);
            s == env + (rust_hooks::incremental_line(inc) + (executor::work_lines(work) + (
            executor::SETUP@ + (shim + executor::RUN@))))
        }),
{
    let s = crate_script(env, inc, work, tmp, pl);
    let shim = rust_hooks::shim_lines(tmp, pl.expected_rmeta, pl.skip_link_pass);
    assert(s =~= env + (rust_hooks::incremental_line(inc) + (executor::work_lines(work) + (
    executor::SETUP@ + (shim + executor::RUN@)))));
}

/// What a crate left in its outputs, its early metadata and the mark of completion are no scratch; the
/// files that the build was given, and what its worker printed, are.
pub proof fn outputs_are_no_scratch(name: &str, r: bool)
    requires
        call_ensures(is_scratch, (name,), r),
    ensures
        name@ == "out"@ || name@ == "lib"@ || name@ == "rmeta"@ || name@ == "done"@ ==> !r,
        name@ == "builder.sh"@ || name@ == "env.sh"@ || name@ == ".attrs.sh"@ || name@
            == ".attrs.json"@ || name@ == "rustc-wrap"@ || name@ == "worker-stdout"@ || name@
            == "worker-stderr"@ ==> r,
{
    reveal_strlit("out");
    reveal_strlit("lib");
    reveal_strlit("rmeta");
    reveal_strlit("done");
    reveal_strlit("rustc-wrap");
    reveal_strlit("builder.sh");
    reveal_strlit("env.sh");
    reveal_strlit(".attrs.sh");
    reveal_strlit(".attrs.json");
    reveal_strlit("worker-stdout");
    reveal_strlit("worker-stderr");
    assert("out"@.len() == 3 && "lib"@.len() == 3 && "rmeta"@.len() == 5 && "done"@.len() == 4);
    assert("rustc-wrap"@.len() == 10 && "builder.sh"@.len() == 10 && "env.sh"@.len() == 6);
    assert(".attrs.sh"@.len() == 9 && ".attrs.json"@.len() == 11);
    assert("worker-stdout"@.len() == 13 && "worker-stderr"@.len() == 13);
}

/// Without structured attributes every variable of the derivation that bash can name reaches the
/// compiler, first with what lies elsewhere put in place of store paths, and then with early metadata
/// put in place of libraries.
pub proof fn variables_reach_the_crate(
    d: DrvView,
    tmp: Seq<char>,
    rw: Seq<(Seq<char>, Seq<char>)>,
    rmeta: Seq<(Seq<char>, Seq<char>)>,
    src: Option<Seq<char>>,
    k: Seq<char>,
)
    requires
        d.env.dom().finite(),
        d.env.contains_key(k),
        attrs::bash_ident(k),
    ensures
        ({
            let e = crate_env_of(d, false, tmp, rw, rmeta, src);
            let v = rewrite::rewritten(rmeta, rewrite::rewritten(rw, d.env[k]));
            &&& e is Ok
            &&& e->Ok_0.files.len() == 1
            &&& text::occurs(
                e->Ok_0.files[0].1,
                "export "@ + k + "=$'"@ + attrs::dollar_escaped(v) + "'\n"@,
            )
        }),
{
    let env = d.env.map_values(
        |v: Seq<char>| rewrite::rewritten(rmeta, rewrite::rewritten(rw, v)),
    );
    assert(env.dom() =~= d.env.dom());
    executor::a_variable_is_exported(env, k);
}

/// A crate is shown under the name of its crate, its artifact goes where its key says, and it is
/// built where its derivation says.
pub proof fn crates_are_named_and_placed(
    drv_path: Seq<char>,
    d: DrvView,
    root: Seq<char>,
    exe: Seq<char>,
    env: EnvView,
    ov: Option<OverrideView>,
    pl: ConfigView,
)
    ensures
        ({
            let b = crate_build_of(drv_path, d, root, exe, env, ov, pl);
            &&& d.env.contains_key("crateName"@) ==> b.name == d.env["crateName"@]
            &&& b.dest == cache::artifact_path(root, executor::effective(drv_path, ov))
            &&& b.tmp == cache::tmp_place(root, drv_path)
            &&& b.inc_dir == cache::incremental_place(root, drv_path)
            &&& b.files == env.files
            &&& b.script.0 == path::joined(b.tmp, "builder.sh"@)
            &&& env.script.is_prefix_of(b.script.1)
            &&& executor::RUN@.is_suffix_of(b.script.1)
        }),
{
    let b = crate_build_of(drv_path, d, root, exe, env, ov, pl);
    let s = b.script.1;
    assert(s.subrange(0, env.script.len() as int) =~= env.script);
    assert(s.subrange(s.len() - executor::RUN@.len(), s.len() as int) =~= executor::RUN@);
}

/// A string becomes a declaration of its name with a word that the shell reads as that string. An
/// array or an object that holds anything but strings leaves none, and neither does a name that bash
/// cannot have.
pub proof fn strings_are_declared(k: Seq<char>, t: JsonTree)
    ensures
        !attrs::bash_ident(k) ==> declared_line(k, t).len() == 0,
        attrs::bash_ident(k) && t is Str ==> ({
            let w = declared_line(k, t).subrange(
                12 + k.len() as int,
                declared_line(k, t).len() - 1,
            );
            &&& declared_line(k, t) == "declare -- "@ + k + "="@ + w + "\n"@
            &&& attrs::sh_value(w) == Some(t->Str_0)
        }),
        t matches JsonTree::Arr(a) ==> (exists|i: int| 0 <= i < a.len() && !(#[trigger] a[i] is Str))
            ==> declared_line(k, t).len() == 0,
        t matches JsonTree::Obj(o) ==> (exists|i: int|
            0 <= i < o.len() && !(#[trigger] o[i].1 is Str)) ==> declared_line(k, t).len() == 0,
{
    if attrs::bash_ident(k) && t is Str {
        reveal_strlit("declare -- ");
        reveal_strlit("=");
        reveal_strlit("\n");
        scalars_read_back(t);
        let s = scalar_text(t)->Some_0;
        let d = declared_line(k, t);
        assert(d.subrange(12 + k.len() as int, d.len() - 1) =~= s);
    }
}

/// Every string of an array, and every string under a name that bash can have, stands in the
/// declaration as a word that the shell reads as that string, in order.
pub proof fn items_are_declared_in_order(a: Seq<JsonTree>, i: int)
    requires
        forall|j: int| 0 <= j < a.len() ==> (#[trigger] a[j]) is Str,
        0 <= i < a.len(),
    ensures
        string_items(a) is Some,
        string_items(a)->Some_0.len() == a.len(),
        attrs::sh_value(string_items(a)->Some_0[i]) == Some(a[i]->Str_0),
{
    scalars_read_back(a[i]);
}

/// Every member of an object has its declaration.
pub proof fn every_crate_attribute_is_declared(o: Seq<(Seq<char>, JsonTree)>, i: int)
    requires
        0 <= i < o.len(),
    ensures
        text::occurs(declared_lines(o), declared_line(o[i].0, o[i].1)),
        declared_attrs(JsonTree::Obj(o)) == declared_lines(o),
    decreases o.len(),
{
    let line = declared_line(o[i].0, o[i].1);
    let f = o.drop_last();
    let s = declared_lines(o);
    if i == o.len() - 1 {
        let n = declared_lines(f).len() as int;
        assert(s.subrange(n, n + line.len()) =~= line);
        assert(text::has_at(s, n, line));
    } else {
        assert(f[i] == o[i]);
        every_crate_attribute_is_declared(f, i);
        let n = choose|n: int| text::has_at(declared_lines(f), n, line);
        assert(s.subrange(n, n + line.len()) =~= declared_lines(f).subrange(n, n + line.len()));
        assert(text::has_at(s, n, line));
    }
}

/// The members of an object of strings stand in its declaration in order, those under a name that
/// bash cannot have left out.
pub proof fn named_members_are_declared(o: Seq<(Seq<char>, JsonTree)>, k: Seq<char>, v: Seq<char>)
    ensures
        ({
            let p = o.push((k, JsonTree::Str(v)));
            &&& !attrs::bash_ident(k) ==> named_members(p) == named_members(o)
            &&& attrs::bash_ident(k) ==> named_members(p).len() == named_members(o).len() + 1
                && named_members(o) == named_members(p).drop_last() && ({
                let m = named_members(p).last();
                let w = m.skip(k.len() as int + 3);
                m == seq!['['] + k + seq![']', '='] + w && attrs::sh_value(w) == Some(v)
            })
        }),
        named_members(Seq::empty()).len() == 0,
{
    let p = o.push((k, JsonTree::Str(v)));
    assert(p.drop_last() =~= o);
    if attrs::bash_ident(k) {
        reveal_strlit("[");
        reveal_strlit("]=");
        attrs::simple_values_read_back(JsonTree::Str(v));
        let w = attrs::sh_escaped(v);
        let m = string_member(k, v);
        assert(named_members(p) =~= named_members(o).push(m));
        assert(named_members(p).drop_last() =~= named_members(o));
        assert(m.skip(k.len() as int + 3) =~= w);
        assert(m =~= seq!['['] + k + seq![']', '='] + w);
    }
}

/// A crate that failed is no success, and neither is one that left nothing. One that left a program
/// is, and so is one that left a library.
pub proof fn crates_must_leave_something(
    exit_code: i32,
    libs: &Vec<String>,
    bins: &Vec<String>,
    r: bool,
    i: int,
)
    requires
        call_ensures(crate_succeeded, (exit_code, libs, bins), r),
    ensures
        exit_code != 0 ==> !r,
        libs@.len() == 0 && bins@.len() == 0 ==> !r,
        exit_code == 0 && bins@.len() > 0 ==> r,
        exit_code == 0 && 0 <= i < libs@.len() && (".rlib"@.is_suffix_of(libs.deep_view()[i])
            || ".so"@.is_suffix_of(libs.deep_view()[i]) || ".a"@.is_suffix_of(libs.deep_view()[i]))
            ==> r,
        r && bins@.len() == 0 ==> exists|j: int|
            0 <= j < libs@.len() && (".rlib"@.is_suffix_of(#[trigger] libs.deep_view()[j])
                || ".so"@.is_suffix_of(libs.deep_view()[j]) || ".a"@.is_suffix_of(
                libs.deep_view()[j],
            )),
{
}

/// The words of an array of strings, and those of an object, stand between brackets with a blank
/// between two of them, and the one is declared as a list and the other as a table.
pub proof fn crate_lists_and_tables_are_declared(
    k: Seq<char>,
    a: Seq<JsonTree>,
    o: Seq<(Seq<char>, JsonTree)>,
)
    requires
        attrs::bash_ident(k),
        forall|j: int| 0 <= j < a.len() ==> (#[trigger] a[j]) is Str,
        forall|j: int| 0 <= j < o.len() ==> (#[trigger] o[j]).1 is Str,
    ensures
        declared_line(k, JsonTree::Arr(a)) == "declare -a "@ + k + "=("@ + text::joined(
            string_items(a)->Some_0,
            seq![' '],
        ) + ")\n"@,
        declared_line(k, JsonTree::Obj(o)) == "declare -A "@ + k + "=("@ + text::joined(
            named_members(o),
            seq![' '],
        ) + ")\n"@,
{
    reveal_strlit(" ");
    assert(" "@ =~= seq![' ']);
}

} // verus!
