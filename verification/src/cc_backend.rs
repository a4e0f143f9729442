//! The C and C++ backend: stdenv derivations of cmake or meson projects, declared in `bob.nix`.
//!
//! No unit has an early artifact that dependents could start on, so every dependent waits until a
//! unit is done.
use crate::backend::{
    Backend, BuildContext, ContextView, Hooks, HooksView, NamesView, OutputNames, PipelinePolicy,
    RepoFacts, RepoView,
};
use crate::cc_hooks;
use crate::cc_units;
use crate::drv::{Derivation, DrvView};
use crate::graph;
use crate::graph::{BuildGraph, NodeView};
use crate::overrides;
use crate::resolve::{EvalFile, EvalView};
use crate::rust_backend::RustBackend;
use crate::strmap;
use crate::strmap::StrMap;
use vstd::prelude::*;

verus! {

/// The C and C++ backend.
pub struct CcBackend;

/// The directories of the declared units in a graph.
pub open spec fn declared_dirs(
    nodes: Map<Seq<char>, NodeView>,
    units: Map<Seq<char>, cc_units::CcView>,
) -> Map<Seq<char>, Seq<char>> {
    Map::new(
        |d: Seq<char>| nodes.contains_key(d) && units.contains_key(d),
        |d: Seq<char>| units[d].src,
    )
}

/// The attribute of a declared unit.
pub open spec fn unit_attr(name: Seq<char>) -> Seq<char> {
    "cc."@ + name
}

impl Backend for CcBackend {
    open spec fn id_of(&self) -> Seq<char> {
        "cc"@
    }

    open spec fn claims(&self, drv_path: Seq<char>, d: DrvView, repo: RepoView) -> bool {
        repo.cc_units.contains_key(drv_path)
    }

    open spec fn shown(&self, d: DrvView) -> Seq<char> {
        match overrides::value_at(d.env, "pname"@) {
            Some(n) => n,
            None => match overrides::value_at(d.env, "name"@) {
                Some(n) => n,
                None => "?"@,
            },
        }
    }

    open spec fn attr_of(&self, target: Seq<char>, repo: RepoView) -> Option<Seq<char>> {
        if cc_units::names_of(repo.cc_units).contains(target) {
            Some(unit_attr(target))
        } else {
            None
        }
    }

    open spec fn targets(&self, repo: RepoView) -> Seq<Seq<char>> {
        strmap::in_order(cc_units::names_of(repo.cc_units))
    }

    open spec fn watched(&self, nodes: Map<Seq<char>, NodeView>, repo: RepoView) -> Map<
        Seq<char>,
        Seq<char>,
    > {
        declared_dirs(nodes, repo.cc_units)
    }

    open spec fn skips(&self, name: Seq<char>) -> bool {
        name == "build"@ || name == "target"@
    }

    open spec fn pinned_by(&self) -> Option<Seq<char>> {
        None
    }

    open spec fn lock_of(
        &self,
        lock: Seq<u8>,
        globs: Seq<Seq<char>>,
        files: Seq<EvalView>,
    ) -> Seq<char> {
        Seq::empty()
    }

    open spec fn hooks_of(&self, ctx: ContextView) -> HooksView {
        cc_hooks::added(ctx)
    }

    open spec fn left_something(&self, names: Map<Seq<char>, NamesView>, d: DrvView) -> bool {
        cc_hooks::populated(names, d)
    }

    open spec fn goes_early(&self, d: DrvView) -> bool {
        false
    }

    open spec fn reads_in_full(&self, d: DrvView) -> bool {
        true
    }

    open spec fn will_do(&self, d: DrvView, names: Seq<Seq<char>>) -> bool {
        true
    }

    open spec fn internal(&self) -> Option<Seq<char>> {
        None
    }

    fn id(&self) -> (r: &'static str) {
        "cc"
    }

    fn is_unit(&self, drv_path: &str, drv: &Derivation, repo: &RepoFacts) -> (r: bool) {
        repo.cc_units.contains_key(drv_path)
    }

    fn unit_name(&self, drv: &Derivation) -> (r: String) {
        match drv.env.get("pname") {
            Some(n) => n.clone(),
            None => match drv.env.get("name") {
                Some(n) => n.clone(),
                None => "?".to_owned(),
            },
        }
    }

    fn resolve_attr(&self, target: &str, repo: &RepoFacts) -> (r: Option<String>) {
        if cc_units::cc_target_names(&repo.cc_units).contains(target) {
            let mut a = "cc.".to_owned();
            a.append(target);
            Some(a)
        } else {
            None
        }
    }

    fn list_targets(&self, repo: &RepoFacts) -> (r: Vec<String>) {
        cc_units::cc_target_names(&repo.cc_units).items()
    }

    fn workspace_unit_dirs(&self, graph: &BuildGraph, repo: &RepoFacts) -> (r: StrMap<String>) {
        let ghost nodes = graph.nodes@;
        let ghost l = strmap::listing(nodes);
        let ghost want = declared_dirs(nodes, repo.cc_units@);
        let n: usize = graph.nodes.len();
        let mut m: StrMap<String> = StrMap::new();
        for i in 0..n
            invariant
                nodes == graph.nodes@,
                l == strmap::listing(nodes),
                n == l.len(),
                strmap::as_map(l) == nodes,
                strmap::ascending(l),
                want == declared_dirs(nodes, repo.cc_units@),
                forall|d: Seq<char>| #[trigger]
                    m@.contains_key(d) <==> strmap::has_key(l.take(i as int), d)
                        && want.contains_key(d),
                forall|d: Seq<char>| #[trigger] m@.contains_key(d) ==> m@[d] == want[d],
        {
            let path = graph.nodes.key(i);
            let ghost before = m@;
            proof {
                strmap::ascending_index(l, i as int);
            }
            match repo.cc_units.get(path.as_str()) {
                None => {},
                Some(u) => {
                    m.insert(path.clone(), u.src.clone());
                },
            }
            proof {
                assert forall|d: Seq<char>| #[trigger] m@.contains_key(d) <==> strmap::has_key(
                    l.take(i + 1),
                    d,
                ) && want.contains_key(d) by {
                    strmap::one_more_key(l, i as int, d);
                    assert(before.contains_key(d) <==> strmap::has_key(l.take(i as int), d)
                        && want.contains_key(d));
                }
            }
        }
        proof {
            assert(l.take(n as int) =~= l);
            assert forall|d: Seq<char>| m@.contains_key(d) <==> want.contains_key(d) by {
                assert(nodes.contains_key(d) <==> strmap::has_key(l, d));
            }
            assert(m@ =~= want);
        }
        m
    }

    fn skip_dir(&self, name: &str) -> (r: bool) {
        cc_units::skip_dir(name)
    }

    fn lock_file(&self) -> (r: Option<String>) {
        None
    }

    fn lock_hash(&self, lock: &[u8], globs: &Vec<String>, files: Vec<EvalFile>) -> (r: String) {
        String::new()
    }

    fn build_script_hooks(&self, ctx: &BuildContext<'_>) -> (r: Hooks) {
        cc_hooks::build_script_hooks(ctx)
    }

    fn output_populated(&self, names: &StrMap<OutputNames>, drv: &Derivation) -> (r: bool) {
        cc_hooks::output_populated(names, drv)
    }

    fn pipeline(&self) -> (r: Option<&dyn PipelinePolicy>) {
        None
    }

    fn claims_internal(&self, cmd: &str) -> (r: bool) {
        false
    }
}

/// The units of a graph are the derivations that one of the two backends claims.
pub proof fn units_are_claimed(drv_path: Seq<char>, d: DrvView, repo: RepoView)
    ensures
        graph::unit(repo.cc_units.dom(), drv_path, d) <==> RustBackend.claims(drv_path, d, repo)
            || CcBackend.claims(drv_path, d, repo),
{
}

/// The C and C++ backend claims the declared derivations, and knows exactly the names of declared
/// units as targets. Nobody starts early on a unit of it, it reads its dependencies in full, and
/// whatever lies in the cache will do.
pub proof fn declared_units_are_claimed(
    drv_path: Seq<char>,
    d: DrvView,
    repo: RepoView,
    target: Seq<char>,
    names: Seq<Seq<char>>,
)
    ensures
        CcBackend.claims(drv_path, d, repo) <==> repo.cc_units.contains_key(drv_path),
        CcBackend.attr_of(target, repo) is Some <==> exists|u: Seq<char>| #[trigger]
            repo.cc_units.contains_key(u) && repo.cc_units[u].name == target,
        CcBackend.attr_of(target, repo) matches Some(a) ==> a == "cc."@ + target,
        !CcBackend.goes_early(d),
        CcBackend.reads_in_full(d),
        CcBackend.will_do(d, names),
        d.env.contains_key("pname"@) ==> CcBackend.shown(d) == d.env["pname"@],
        !d.env.contains_key("pname"@) && d.env.contains_key("name"@) ==> CcBackend.shown(d)
            == d.env["name"@],
{
}

/// A declared unit of the graph is watched in its declared directory, and no other derivation is.
pub proof fn declared_units_are_watched(
    nodes: Map<Seq<char>, NodeView>,
    repo: RepoView,
    d: Seq<char>,
)
    ensures
        CcBackend.watched(nodes, repo).contains_key(d) <==> nodes.contains_key(d)
            && repo.cc_units.contains_key(d),
        CcBackend.watched(nodes, repo).contains_key(d) ==> CcBackend.watched(nodes, repo)[d]
            == repo.cc_units[d].src,
{
}

/// What is built into is no source of a declared unit, and neither a lock nor a shim belongs to one.
pub proof fn declared_units_have_no_lock(dir: Seq<char>)
    ensures
        CcBackend.skips(dir) <==> (dir == seq!['b', 'u', 'i', 'l', 'd'] || dir == seq![
            't',
            'a',
            'r',
            'g',
            'e',
            't',
        ]),
        CcBackend.pinned_by() is None,
        CcBackend.internal() is None,
{
    reveal_strlit("build");
    reveal_strlit("target");
    assert("build"@ =~= seq!['b', 'u', 'i', 'l', 'd']);
    assert("target"@ =~= seq!['t', 'a', 'r', 'g', 'e', 't']);
}

} // verus!
