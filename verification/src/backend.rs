//! What a language supplies to the replay of derivations.
//!
//! Reading derivations, the graph, the cache, rewriting paths, scheduling and the replay itself know
//! nothing of languages. A [`Backend`] says which derivations are units and how they are named, how
//! a target maps to an attribute of `bob.nix`, which units to watch for source changes, what the
//! build script needs beyond `$stdenv/setup`, and what may be built early.
use crate::cache::ArtifactCache;
use crate::cc_units::{CcUnit, CcView};
use crate::drv::{Derivation, DrvView};
use crate::executor::TextFile;
use crate::graph::{BuildGraph, NodeView};
use crate::overrides::{OwnHash, OwnView};
use crate::path;
use crate::resolve::{EvalFile, EvalView};
use crate::strmap;
use crate::strmap::{StrMap, StrSet};
use vstd::prelude::*;

verus! {

/// What is known of a unit when its build script is written.
#[derive(Clone, Copy)]
pub struct BuildContext<'a> {
    pub drv_path: &'a str,
    pub drv: &'a Derivation,
    /// Where the unit is built.
    pub tmp: &'a str,
    pub cache: &'a ArtifactCache,
    /// Whether the unit is a target of its own, not only a dependency of one.
    pub is_root: bool,
    /// The path of this program, for shims that call it again.
    pub self_exe: &'a str,
}

/// What a [`BuildContext`] holds.
#[verifier::ext_equal]
pub struct ContextView {
    pub drv_path: Seq<char>,
    pub drv: DrvView,
    pub tmp: Seq<char>,
    pub root: Seq<char>,
    pub is_root: bool,
    pub self_exe: Seq<char>,
}

impl<'a> DeepView for BuildContext<'a> {
    type V = ContextView;

    open spec fn deep_view(&self) -> ContextView {
        ContextView {
            drv_path: self.drv_path@,
            drv: self.drv.deep_view(),
            tmp: self.tmp@,
            root: self.cache@,
            is_root: self.is_root,
            self_exe: self.self_exe@,
        }
    }
}

/// What a backend adds to a build: directories to create, executable files to write, and lines
/// for the build script behind `$stdenv/setup`.
pub struct Hooks {
    pub dirs: Vec<String>,
    pub shims: Vec<TextFile>,
    pub lines: String,
}

/// What [`Hooks`] hold.
#[verifier::ext_equal]
pub struct HooksView {
    pub dirs: Seq<Seq<char>>,
    pub shims: Seq<(Seq<char>, Seq<char>)>,
    pub lines: Seq<char>,
}

impl DeepView for Hooks {
    type V = HooksView;

    open spec fn deep_view(&self) -> HooksView {
        HooksView {
            dirs: self.dirs.deep_view(),
            shims: self.shims.deep_view(),
            lines: self.lines@,
        }
    }
}

/// What the backends know of a repository: the directory of each workspace member by its name, and
/// the declared C and C++ units by their derivations.
pub struct RepoFacts {
    pub members: StrMap<String>,
    pub cc_units: StrMap<CcUnit>,
}

/// What [`RepoFacts`] hold.
#[verifier::ext_equal]
pub struct RepoView {
    pub members: Map<Seq<char>, Seq<char>>,
    pub cc_units: Map<Seq<char>, CcView>,
}

impl DeepView for RepoFacts {
    type V = RepoView;

    open spec fn deep_view(&self) -> RepoView {
        RepoView { members: self.members@, cc_units: self.cc_units@ }
    }
}

/// The names below a built unit that tell whether it left something: for each output by its name,
/// what its `lib` and its `bin` hold.
pub struct OutputNames {
    pub lib: Vec<String>,
    pub bin: Vec<String>,
}

/// What [`OutputNames`] hold.
#[verifier::ext_equal]
pub struct NamesView {
    pub lib: Seq<Seq<char>>,
    pub bin: Seq<Seq<char>>,
}

impl DeepView for OutputNames {
    type V = NamesView;

    open spec fn deep_view(&self) -> NamesView {
        NamesView { lib: self.lib.deep_view(), bin: self.bin.deep_view() }
    }
}

/// What a language may build early.
pub trait PipelinePolicy {
    /// Whether dependents of a unit can start before it is done.
    spec fn early(&self, d: DrvView) -> bool;

    /// Whether a unit reads its dependencies in full.
    spec fn in_full(&self, d: DrvView) -> bool;

    /// Whether a cached artifact with these names in its `lib/lib` will do for a target.
    spec fn suffices(&self, d: DrvView, names: Seq<Seq<char>>) -> bool;

    fn is_pipelineable(&self, drv: &Derivation) -> (r: bool)
        ensures
            r == self.early(drv.deep_view()),
    ;

    fn is_linking(&self, drv: &Derivation) -> (r: bool)
        ensures
            r == self.in_full(drv.deep_view()),
    ;

    fn cached_artifact_sufficient_as_root(&self, drv: &Derivation, names: &Vec<String>) -> (r: bool)
        ensures
            r == self.suffices(drv.deep_view(), names.deep_view()),
    ;
}

/// A language.
pub trait Backend {
    /// The name of the backend, which is its attribute of `bob.nix`.
    spec fn id_of(&self) -> Seq<char>;

    /// Whether a derivation is a unit of this backend.
    spec fn claims(&self, drv_path: Seq<char>, d: DrvView, repo: RepoView) -> bool;

    /// How a unit is shown.
    spec fn shown(&self, d: DrvView) -> Seq<char>;

    /// The attribute of a target below `import bob.nix {}`, if the backend knows the target.
    spec fn attr_of(&self, target: Seq<char>, repo: RepoView) -> Option<Seq<char>>;

    /// The targets, in ascending order.
    spec fn targets(&self, repo: RepoView) -> Seq<Seq<char>>;

    /// The directories of the units whose source is watched, by their derivations.
    spec fn watched(&self, nodes: Map<Seq<char>, NodeView>, repo: RepoView) -> Map<
        Seq<char>,
        Seq<char>,
    >;

    /// Whether a directory of this name holds what a build made and is no source.
    spec fn skips(&self, name: Seq<char>) -> bool;

    /// The file at the root of a repository that pins the dependencies, if the backend has one.
    spec fn pinned_by(&self) -> Option<Seq<char>>;

    /// What the backend adds to the key of an evaluation, from the bytes of the file that pins the
    /// dependencies and what is declared beside. It is empty where there is no such file.
    spec fn lock_of(&self, lock: Seq<u8>, globs: Seq<Seq<char>>, files: Seq<EvalView>) -> Seq<char>;

    /// What the backend adds to a build.
    spec fn hooks_of(&self, ctx: ContextView) -> HooksView;

    /// Whether a built unit left something usable.
    spec fn left_something(&self, names: Map<Seq<char>, NamesView>, d: DrvView) -> bool;

    /// Whether dependents of a unit can start before it is done.
    spec fn goes_early(&self, d: DrvView) -> bool;

    /// Whether a unit reads its dependencies in full.
    spec fn reads_in_full(&self, d: DrvView) -> bool;

    /// Whether a cached artifact with these names in its `lib/lib` will do for a target.
    spec fn will_do(&self, d: DrvView, names: Seq<Seq<char>>) -> bool;

    /// The subcommand that the backend's shims call, if it has shims.
    spec fn internal(&self) -> Option<Seq<char>>;

    fn id(&self) -> (r: &'static str)
        ensures
            r@ == self.id_of(),
    ;

    fn is_unit(&self, drv_path: &str, drv: &Derivation, repo: &RepoFacts) -> (r: bool)
        ensures
            r == self.claims(drv_path@, drv.deep_view(), repo.deep_view()),
    ;

    fn unit_name(&self, drv: &Derivation) -> (r: String)
        ensures
            r@ == self.shown(drv.deep_view()),
    ;

    fn resolve_attr(&self, target: &str, repo: &RepoFacts) -> (r: Option<String>)
        ensures
            match r {
                Some(a) => self.attr_of(target@, repo.deep_view()) == Some(a@),
                None => self.attr_of(target@, repo.deep_view()) is None,
            },
    ;

    fn list_targets(&self, repo: &RepoFacts) -> (r: Vec<String>)
        ensures
            r.deep_view() == self.targets(repo.deep_view()),
    ;

    fn workspace_unit_dirs(&self, graph: &BuildGraph, repo: &RepoFacts) -> (r: StrMap<String>)
        ensures
            r@ == self.watched(graph.nodes@, repo.deep_view()),
    ;

    fn skip_dir(&self, name: &str) -> (r: bool)
        ensures
            r == self.skips(name@),
    ;

    fn lock_file(&self) -> (r: Option<String>)
        ensures
            match r {
                Some(f) => self.pinned_by() == Some(f@),
                None => self.pinned_by() is None,
            },
    ;

    fn lock_hash(&self, lock: &[u8], globs: &Vec<String>, files: Vec<EvalFile>) -> (r: String)
        ensures
            r@ == self.lock_of(lock@, globs.deep_view(), files.deep_view()),
    ;

    fn build_script_hooks(&self, ctx: &BuildContext<'_>) -> (r: Hooks)
        ensures
            r.deep_view() == self.hooks_of(ctx.deep_view()),
    ;

    fn output_populated(&self, names: &StrMap<OutputNames>, drv: &Derivation) -> (r: bool)
        ensures
            r == self.left_something(names@, drv.deep_view()),
    ;

    /// What may be built early, if anything.
    fn pipeline(&self) -> (r: Option<&dyn PipelinePolicy>)
        ensures
            match r {
                Some(p) => forall|d: DrvView|
                    {
                        &&& #[trigger] p.early(d) == self.goes_early(d)
                        &&& p.in_full(d) == self.reads_in_full(d)
                        &&& forall|names: Seq<Seq<char>>| #[trigger]
                            p.suffices(d, names) == self.will_do(d, names)
                    },
                None => forall|d: DrvView|
                    {
                        &&& !#[trigger] self.goes_early(d)
                        &&& self.reads_in_full(d)
                        &&& forall|names: Seq<Seq<char>>| #[trigger] self.will_do(d, names)
                    },
            },
    ;

    fn claims_internal(&self, cmd: &str) -> (r: bool)
        ensures
            r == (self.internal() == Some(cmd@)),
    ;
}

/// The position of the first backend from `i` on that claims a derivation.
pub open spec fn owner_from(
    backends: Seq<&dyn Backend>,
    i: int,
    drv_path: Seq<char>,
    d: DrvView,
    repo: RepoView,
) -> Option<int>
    decreases backends.len() - i,
{
    if i < 0 || i >= backends.len() {
        None
    } else if backends[i].claims(drv_path, d, repo) {
        Some(i)
    } else {
        owner_from(backends, i + 1, drv_path, d, repo)
    }
}

/// The position of the backend that a unit belongs to: the first that claims its derivation, or the
/// first of all where none does.
pub open spec fn owner(
    backends: Seq<&dyn Backend>,
    drv_path: Seq<char>,
    d: DrvView,
    repo: RepoView,
) -> int {
    match owner_from(backends, 0, drv_path, d, repo) {
        Some(i) => i,
        None => 0,
    }
}

/// Gives the backend that a unit belongs to, by its position.
pub fn backend_for(
    backends: &Vec<&dyn Backend>,
    drv_path: &str,
    drv: &Derivation,
    repo: &RepoFacts,
) -> (r: usize)
    requires
        backends@.len() > 0,
    ensures
        r < backends@.len(),
        r == owner(backends@, drv_path@, drv.deep_view(), repo.deep_view()),
{
    for i in 0..backends.len()
        invariant
            owner_from(backends@, 0, drv_path@, drv.deep_view(), repo.deep_view()) == owner_from(
                backends@,
                i as int,
                drv_path@,
                drv.deep_view(),
                repo.deep_view(),
            ),
    {
        if backends[i].is_unit(drv_path, drv, repo) {
            return i;
        }
    }
    0
}

/// Whether some backend claims a derivation.
pub fn is_unit(
    backends: &Vec<&dyn Backend>,
    drv_path: &str,
    drv: &Derivation,
    repo: &RepoFacts,
) -> (r: bool)
    ensures
        r == (owner_from(backends@, 0, drv_path@, drv.deep_view(), repo.deep_view()) is Some),
{
    for i in 0..backends.len()
        invariant
            owner_from(backends@, 0, drv_path@, drv.deep_view(), repo.deep_view()) == owner_from(
                backends@,
                i as int,
                drv_path@,
                drv.deep_view(),
                repo.deep_view(),
            ),
    {
        if backends[i].is_unit(drv_path, drv, repo) {
            return true;
        }
    }
    false
}

/// Whether dependents of a unit can start before it is done, as the backend it belongs to says.
pub open spec fn owned_early(
    backends: Seq<&dyn Backend>,
    drv_path: Seq<char>,
    d: DrvView,
    repo: RepoView,
) -> bool {
    backends[owner(backends, drv_path, d, repo)].goes_early(d)
}

/// Whether a unit reads its dependencies in full, as the backend it belongs to says.
pub open spec fn owned_in_full(
    backends: Seq<&dyn Backend>,
    drv_path: Seq<char>,
    d: DrvView,
    repo: RepoView,
) -> bool {
    backends[owner(backends, drv_path, d, repo)].reads_in_full(d)
}

fn policy_of(
    backends: &Vec<&dyn Backend>,
    drv_path: &str,
    drv: &Derivation,
    repo: &RepoFacts,
) -> (r: (bool, bool))
    requires
        backends@.len() > 0,
    ensures
        r.0 == owned_early(backends@, drv_path@, drv.deep_view(), repo.deep_view()),
        r.1 == owned_in_full(backends@, drv_path@, drv.deep_view(), repo.deep_view()),
{
    let i: usize = backend_for(backends, drv_path, drv, repo);
    match backends[i].pipeline() {
        Some(p) => (p.is_pipelineable(drv), p.is_linking(drv)),
        None => {
            assert(!backends@[i as int].goes_early(drv.deep_view()));
            (false, true)
        },
    }
}

/// The units whose dependents can start before they are done, and those that read their
/// dependencies in full.
pub struct Policies {
    pub pipelineable: StrSet,
    pub links: StrSet,
}

/// Asks the backends about all units of a graph.
pub fn gather_policies(g: &BuildGraph, backends: &Vec<&dyn Backend>, repo: &RepoFacts) -> (r:
    Policies)
    requires
        backends@.len() > 0,
    ensures
        forall|d: Seq<char>| #[trigger]
            r.pipelineable@.contains(d) <==> g.nodes@.contains_key(d) && owned_early(
                backends@,
                d,
                g.nodes@[d].drv,
                repo.deep_view(),
            ),
        forall|d: Seq<char>| #[trigger]
            r.links@.contains(d) <==> g.nodes@.contains_key(d) && owned_in_full(
                backends@,
                d,
                g.nodes@[d].drv,
                repo.deep_view(),
            ),
{
    let ghost nodes = g.nodes@;
    let ghost l = strmap::listing(nodes);
    let n: usize = g.nodes.len();
    let mut pipelineable = StrSet::new();
    let mut links = StrSet::new();
    for i in 0..n
        invariant
            nodes == g.nodes@,
            l == strmap::listing(nodes),
            n == l.len(),
            strmap::ascending(l),
            strmap::as_map(l) == nodes,
            backends@.len() > 0,
            forall|d: Seq<char>| #[trigger]
                pipelineable@.contains(d) <==> strmap::has_key(l.take(i as int), d) && owned_early(
                    backends@,
                    d,
                    nodes[d].drv,
                    repo.deep_view(),
                ),
            forall|d: Seq<char>| #[trigger]
                links@.contains(d) <==> strmap::has_key(l.take(i as int), d) && owned_in_full(
                    backends@,
                    d,
                    nodes[d].drv,
                    repo.deep_view(),
                ),
    {
        let path = g.nodes.key(i);
        let node = g.nodes.value(i);
        let ghost p0 = pipelineable@;
        let ghost l0 = links@;
        proof {
            strmap::ascending_index(l, i as int);
            assert(nodes[path@] == node.deep_view());
        }
        let (early, full) = policy_of(backends, path.as_str(), &node.drv, repo);
        if early {
            pipelineable.insert(path.clone());
        }
        if full {
            links.insert(path.clone());
        }
        proof {
            assert forall|d: Seq<char>| #[trigger] pipelineable@.contains(d) <==> strmap::has_key(
                l.take(i + 1),
                d,
            ) && owned_early(backends@, d, nodes[d].drv, repo.deep_view()) by {
                strmap::one_more_key(l, i as int, d);
                assert(p0.contains(d) <==> strmap::has_key(l.take(i as int), d) && owned_early(
                    backends@,
                    d,
                    nodes[d].drv,
                    repo.deep_view(),
                ));
            }
            assert forall|d: Seq<char>| #[trigger] links@.contains(d) <==> strmap::has_key(
                l.take(i + 1),
                d,
            ) && owned_in_full(backends@, d, nodes[d].drv, repo.deep_view()) by {
                strmap::one_more_key(l, i as int, d);
                assert(l0.contains(d) <==> strmap::has_key(l.take(i as int), d) && owned_in_full(
                    backends@,
                    d,
                    nodes[d].drv,
                    repo.deep_view(),
                ));
            }
        }
    }
    proof {
        assert(l.take(n as int) =~= l);
        assert forall|d: Seq<char>| nodes.contains_key(d) <==> #[trigger] strmap::has_key(l, d) by {
            assert(strmap::as_map(l).contains_key(d) <==> strmap::has_key(l, d));
        }
    }
    Policies { pipelineable, links }
}

/// Whether a unit can be taken from the cache: it is there, and what is there will do. What was
/// committed for a dependency may lack what a target needs.
pub fn cached_artifact_ok<B: Backend + ?Sized>(
    in_cache: bool,
    is_root: bool,
    backend: &B,
    drv: &Derivation,
    names: &Vec<String>,
) -> (r: bool)
    ensures
        r == (in_cache && (is_root ==> backend.will_do(drv.deep_view(), names.deep_view()))),
{
    if !in_cache || !is_root {
        return in_cache;
    }
    match backend.pipeline() {
        Some(p) => {
            assert(p.early(drv.deep_view()) == backend.goes_early(drv.deep_view()));
            p.cached_artifact_sufficient_as_root(drv, names)
        },
        None => {
            assert(!backend.goes_early(drv.deep_view()));
            true
        },
    }
}

/// The own source of the watched units whose directories could be hashed.
pub open spec fn own_sources(
    repo_root: Seq<char>,
    dirs: Map<Seq<char>, Seq<char>>,
    hashes: Map<Seq<char>, Seq<char>>,
) -> Map<Seq<char>, OwnView> {
    Map::new(
        |d: Seq<char>| dirs.contains_key(d) && hashes.contains_key(d),
        |d: Seq<char>| OwnView { hash: hashes[d], src_dir: path::joined(repo_root, dirs[d]) },
    )
}

/// Gives the own source of watched units from their directories and the hashes of these, both by
/// derivation. A directory that could not be hashed has none.
pub fn unit_hashes(repo_root: &str, dirs: &StrMap<String>, hashes: &StrMap<String>) -> (r: StrMap<
    OwnHash,
>)
    ensures
        r@ == own_sources(repo_root@, dirs@, hashes@),
{
    let ghost l = strmap::listing(dirs@);
    let ghost want = own_sources(repo_root@, dirs@, hashes@);
    let n: usize = dirs.len();
    let mut m: StrMap<OwnHash> = StrMap::new();
    for i in 0..n
        invariant
            l == strmap::listing(dirs@),
            n == l.len(),
            strmap::as_map(l) == dirs@,
            strmap::ascending(l),
            want == own_sources(repo_root@, dirs@, hashes@),
            forall|d: Seq<char>| #[trigger]
                m@.contains_key(d) <==> strmap::has_key(l.take(i as int), d) && want.contains_key(
                    d,
                ),
            forall|d: Seq<char>| #[trigger] m@.contains_key(d) ==> m@[d] == want[d],
    {
        let drv = dirs.key(i);
        let ghost before = m@;
        proof {
            strmap::ascending_index(l, i as int);
        }
        match hashes.get(drv.as_str()) {
            None => {},
            Some(h) => {
                m.insert(
                    drv.clone(),
                    OwnHash {
                        hash: h.clone(),
                        src_dir: path::join(repo_root, dirs.value(i).as_str()),
                    },
                );
            },
        }
        proof {
            assert forall|d: Seq<char>| #[trigger] m@.contains_key(d) <==> strmap::has_key(
                l.take(i + 1),
                d,
            ) && want.contains_key(d) by {
                strmap::one_more_key(l, i as int, d);
                assert(before.contains_key(d) <==> strmap::has_key(l.take(i as int), d)
                    && want.contains_key(d));
            }
        }
    }
    proof {
        assert(l.take(n as int) =~= l);
        assert forall|d: Seq<char>| m@.contains_key(d) <==> want.contains_key(d) by {
            assert(dirs@.contains_key(d) <==> strmap::has_key(l, d));
        }
        assert(m@ =~= want);
    }
    m
}

/// A unit belongs to the first backend that claims its derivation; where none does, to the first of
/// all.
pub proof fn the_first_claim_counts(
    backends: Seq<&dyn Backend>,
    drv_path: Seq<char>,
    d: DrvView,
    repo: RepoView,
    i: int,
)
    requires
        0 <= i < backends.len(),
        forall|k: int| 0 <= k < i ==> !(#[trigger] backends[k]).claims(drv_path, d, repo),
    ensures
        backends[i].claims(drv_path, d, repo) ==> owner(backends, drv_path, d, repo) == i
            && owner_from(backends, 0, drv_path, d, repo) is Some,
        i == backends.len() - 1 && !backends[i].claims(drv_path, d, repo) ==> owner(
            backends,
            drv_path,
            d,
            repo,
        ) == 0 && owner_from(backends, 0, drv_path, d, repo) is None,
{
    passed_over(backends, drv_path, d, repo, i, 0);
    reveal_with_fuel(owner_from, 2);
}

proof fn passed_over(
    backends: Seq<&dyn Backend>,
    drv_path: Seq<char>,
    d: DrvView,
    repo: RepoView,
    i: int,
    k: int,
)
    requires
        0 <= k <= i < backends.len(),
        forall|j: int| 0 <= j < i ==> !(#[trigger] backends[j]).claims(drv_path, d, repo),
    ensures
        owner_from(backends, k, drv_path, d, repo) == owner_from(backends, i, drv_path, d, repo),
    decreases i - k,
{
    if k < i {
        assert(!backends[k].claims(drv_path, d, repo));
        passed_over(backends, drv_path, d, repo, i, k + 1);
    }
}

/// Exactly the watched units whose directories could be hashed have a source of their own: with
/// that hash, below the root of the repository.
pub proof fn watched_units_have_their_source(
    repo_root: Seq<char>,
    dirs: Map<Seq<char>, Seq<char>>,
    hashes: Map<Seq<char>, Seq<char>>,
    d: Seq<char>,
)
    ensures
        own_sources(repo_root, dirs, hashes).contains_key(d) <==> dirs.contains_key(d)
            && hashes.contains_key(d),
        own_sources(repo_root, dirs, hashes).contains_key(d) ==> own_sources(
            repo_root,
            dirs,
            hashes,
        )[d].hash == hashes[d],
        own_sources(repo_root, dirs, hashes).contains_key(d) && repo_root.len() > 0
            && repo_root.last() != '/' && dirs[d].len() > 0 && dirs[d][0] != '/' ==> own_sources(
            repo_root,
            dirs,
            hashes,
        )[d].src_dir == repo_root + seq!['/'] + dirs[d],
{
    path::joining_goes_below(repo_root, dirs[d]);
}

/// Whether dependents can start before a unit is done, and whether the unit reads its dependencies in
/// full, is what the first backend that claims the unit says.
pub proof fn the_owner_decides(
    backends: Seq<&dyn Backend>,
    drv_path: Seq<char>,
    d: DrvView,
    repo: RepoView,
    i: int,
)
    requires
        0 <= i < backends.len(),
        backends[i].claims(drv_path, d, repo),
        forall|j: int| 0 <= j < i ==> !(#[trigger] backends[j]).claims(drv_path, d, repo),
    ensures
        owned_early(backends, drv_path, d, repo) == backends[i].goes_early(d),
        owned_in_full(backends, drv_path, d, repo) == backends[i].reads_in_full(d),
{
    the_first_claim_counts(backends, drv_path, d, repo, i);
}

} // verus!
