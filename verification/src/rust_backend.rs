//! The Rust backend: crates built by `buildRustCrate`.
use crate::backend::{
    Backend, BuildContext, ContextView, Hooks, HooksView, NamesView, OutputNames, PipelinePolicy,
    RepoFacts, RepoView,
};
use crate::digest;
use crate::drv::{Derivation, DrvView};
use crate::graph::{BuildGraph, NodeView};
use crate::resolve;
use crate::resolve::{EvalFile, EvalView};
use crate::rust_hooks;
use crate::rust_pipeline;
use crate::rust_workspace;
use crate::strmap;
use crate::strmap::StrMap;
use crate::text;
use vstd::prelude::*;

verus! {

/// The Rust backend.
pub struct RustBackend;

/// What the Rust backend builds early.
pub struct RustPipeline;

impl PipelinePolicy for RustPipeline {
    open spec fn early(&self, d: DrvView) -> bool {
        rust_pipeline::pipelineable(d)
    }

    open spec fn in_full(&self, d: DrvView) -> bool {
        rust_pipeline::links(d)
    }

    open spec fn suffices(&self, d: DrvView, names: Seq<Seq<char>>) -> bool {
        rust_pipeline::wants_link(d) ==> rust_pipeline::some_end_so(names, ".so"@, ".a"@, ".dylib"@)
    }

    fn is_pipelineable(&self, drv: &Derivation) -> (r: bool) {
        rust_pipeline::is_pipelineable(drv)
    }

    fn is_linking(&self, drv: &Derivation) -> (r: bool) {
        rust_pipeline::is_linking(drv)
    }

    fn cached_artifact_sufficient_as_root(&self, drv: &Derivation, names: &Vec<String>) -> (r:
        bool) {
        rust_pipeline::cached_artifact_sufficient_as_root(drv, names)
    }
}

/// The attribute of a workspace member.
pub open spec fn member_attr(name: Seq<char>) -> Seq<char> {
    "rust.workspaceMembers."@ + name + ".build"@
}

impl Backend for RustBackend {
    open spec fn id_of(&self) -> Seq<char> {
        "rust"@
    }

    open spec fn claims(&self, drv_path: Seq<char>, d: DrvView, repo: RepoView) -> bool {
        rust_workspace::crate_name(d) is Some
    }

    open spec fn shown(&self, d: DrvView) -> Seq<char> {
        match rust_workspace::crate_name(d) {
            Some(n) => n,
            None => "?"@,
        }
    }

    open spec fn attr_of(&self, target: Seq<char>, repo: RepoView) -> Option<Seq<char>> {
        if repo.members.contains_key(target) {
            Some(member_attr(target))
        } else {
            None
        }
    }

    open spec fn targets(&self, repo: RepoView) -> Seq<Seq<char>> {
        strmap::keys_of(strmap::listing(repo.members))
    }

    open spec fn watched(&self, nodes: Map<Seq<char>, NodeView>, repo: RepoView) -> Map<
        Seq<char>,
        Seq<char>,
    > {
        rust_workspace::member_dirs(nodes, repo.members)
    }

    open spec fn skips(&self, name: Seq<char>) -> bool {
        name == "target"@
    }

    open spec fn pinned_by(&self) -> Option<Seq<char>> {
        Some("Cargo.lock"@)
    }

    open spec fn lock_of(
        &self,
        lock: Seq<u8>,
        globs: Seq<Seq<char>>,
        files: Seq<EvalView>,
    ) -> Seq<char> {
        digest::short_hex(rust_workspace::lock_bytes(lock, globs, files), 16)
    }

    open spec fn hooks_of(&self, ctx: ContextView) -> HooksView {
        rust_hooks::added(ctx)
    }

    open spec fn left_something(&self, names: Map<Seq<char>, NamesView>, d: DrvView) -> bool {
        rust_hooks::populated(names)
    }

    open spec fn goes_early(&self, d: DrvView) -> bool {
        rust_pipeline::pipelineable(d)
    }

    open spec fn reads_in_full(&self, d: DrvView) -> bool {
        rust_pipeline::links(d)
    }

    open spec fn will_do(&self, d: DrvView, names: Seq<Seq<char>>) -> bool {
        rust_pipeline::wants_link(d) ==> rust_pipeline::some_end_so(names, ".so"@, ".a"@, ".dylib"@)
    }

    open spec fn internal(&self) -> Option<Seq<char>> {
        Some("__rustc-wrap"@)
    }

    fn id(&self) -> (r: &'static str) {
        "rust"
    }

    fn is_unit(&self, drv_path: &str, drv: &Derivation, repo: &RepoFacts) -> (r: bool) {
        drv.env.contains_key("crateName")
    }

    fn unit_name(&self, drv: &Derivation) -> (r: String) {
        match drv.env.get("crateName") {
            Some(n) => n.clone(),
            None => "?".to_owned(),
        }
    }

    fn resolve_attr(&self, target: &str, repo: &RepoFacts) -> (r: Option<String>) {
        if repo.members.contains_key(target) {
            let mut a = "rust.workspaceMembers.".to_owned();
            a.append(target);
            a.append(".build");
            Some(a)
        } else {
            None
        }
    }

    fn list_targets(&self, repo: &RepoFacts) -> (r: Vec<String>) {
        repo.members.keys()
    }

    fn workspace_unit_dirs(&self, graph: &BuildGraph, repo: &RepoFacts) -> (r: StrMap<String>) {
        rust_workspace::unit_dirs(graph, &repo.members)
    }

    fn skip_dir(&self, name: &str) -> (r: bool) {
        rust_workspace::skip_dir(name)
    }

    fn lock_file(&self) -> (r: Option<String>) {
        Some("Cargo.lock".to_owned())
    }

    fn lock_hash(&self, lock: &[u8], globs: &Vec<String>, files: Vec<EvalFile>) -> (r: String) {
        rust_workspace::lock_hash(lock, globs, files)
    }

    fn build_script_hooks(&self, ctx: &BuildContext<'_>) -> (r: Hooks) {
        rust_hooks::build_script_hooks(ctx)
    }

    fn output_populated(&self, names: &StrMap<OutputNames>, drv: &Derivation) -> (r: bool) {
        rust_hooks::output_populated(names)
    }

    fn pipeline(&self) -> (r: Option<&dyn PipelinePolicy>) {
        Some(&RustPipeline)
    }

    fn claims_internal(&self, cmd: &str) -> (r: bool) {
        text::str_eq(cmd, "__rustc-wrap")
    }
}

/// What lies in the cache will do for a crate as a target unless the crate is to be a shared or a
/// static library and none lies there.
pub proof fn targets_need_their_library(d: DrvView, names: Seq<Seq<char>>, f: Seq<char>)
    requires
        d.env.contains_key("crateType"@),
    ensures
        ({
            let ts = text::words(d.env["crateType"@]);
            let linked = ts.contains("cdylib"@) || ts.contains("staticlib"@);
            &&& !linked ==> RustBackend.will_do(d, names)
            &&& linked ==> (RustBackend.will_do(d, names) <==> exists|n: Seq<char>| #[trigger]
                names.contains(n) && (".so"@.is_suffix_of(n) || ".a"@.is_suffix_of(n)
                    || ".dylib"@.is_suffix_of(n)))
            &&& names.contains(f + ".so"@) ==> RustBackend.will_do(d, names)
            &&& names.contains(f + ".a"@) ==> RustBackend.will_do(d, names)
            &&& names.contains(f + ".dylib"@) ==> RustBackend.will_do(d, names)
        }),
        RustPipeline.suffices(d, names) == RustBackend.will_do(d, names),
{
    rust_pipeline::libraries_go_early(d, d.env["crateType"@]);
    rust_pipeline::endings_are_found(names, f, ".so"@, ".a"@, ".dylib"@);
}

/// The Rust backend claims the derivations with a crate name, shows that name, and knows exactly the
/// members of the workspace as targets.
pub proof fn crates_are_claimed_by_name(
    drv_path: Seq<char>,
    d: DrvView,
    repo: RepoView,
    target: Seq<char>,
)
    ensures
        RustBackend.claims(drv_path, d, repo) <==> d.env.contains_key("crateName"@),
        d.env.contains_key("crateName"@) ==> RustBackend.shown(d) == d.env["crateName"@],
        RustBackend.attr_of(target, repo) is Some <==> repo.members.contains_key(target),
        repo.members.contains_key(target) ==> RustBackend.attr_of(target, repo) == Some(
            "rust.workspaceMembers."@ + target + ".build"@,
        ),
{
}

/// Evaluations go by what is locked and by all declared inputs: 16 digits of the digest of both.
pub proof fn evaluations_go_by_the_lock(
    b: &RustBackend,
    lock: Seq<u8>,
    globs: Seq<Seq<char>>,
    files: Seq<EvalView>,
)
    ensures
        b.lock_of(lock, globs, files) == digest::blake3_hex(
            lock + resolve::input_bytes(globs, files),
        ).take(16),
        b.pinned_by() == Some("Cargo.lock"@),
{
}

/// What cargo builds into is no source of a crate, and all else may be.
pub proof fn cargo_builds_are_no_source(dir: Seq<char>)
    ensures
        RustBackend.skips(dir) <==> dir == seq!['t', 'a', 'r', 'g', 'e', 't'],
{
    reveal_strlit("target");
    assert("target"@ =~= seq!['t', 'a', 'r', 'g', 'e', 't']);
}

} // verus!
