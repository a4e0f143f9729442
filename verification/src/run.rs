//! One run over a build graph: keys of units, where their outputs lie, and what each build sees.
use crate::backend;
use crate::backend::{Backend, RepoFacts, RepoView};
use crate::cache;
use crate::cache::ArtifactCache;
use crate::digest;
use crate::drv::{Derivation, OutputView};
use crate::executor;
use crate::executor::{OverrideView, SourceOverride};
use crate::graph;
use crate::graph::{BuildGraph, CrateNode, NodeView};
use crate::overrides;
use crate::overrides::OwnHash;
use crate::path;
use crate::scheduler;
use crate::scheduler::{Facts, Next, SharedState, Status};
use crate::strmap;
use crate::strmap::{StrMap, StrSet};
use crate::text;
use crate::topo;
use vstd::prelude::*;
use vstd::utf8::*;

verus! {

/// A map with the outputs of a unit, each placed in the directory `base` under its name.
pub open spec fn with_outputs(
    m: Map<Seq<char>, Seq<char>>,
    outs: Seq<(Seq<char>, OutputView)>,
    base: Seq<char>,
) -> Map<Seq<char>, Seq<char>>
    decreases outs.len(),
{
    if outs.len() == 0 {
        m
    } else {
        with_outputs(m, outs.drop_last(), base).insert(
            outs.last().1.path,
            path::joined(base, outs.last().0),
        )
    }
}

/// Notes where the outputs of a unit lie.
pub fn register_outputs(m: &mut StrMap<String>, drv: &Derivation, base: &str)
    ensures
        final(m)@ == with_outputs(old(m)@, strmap::listing(drv.outputs@), base@),
{
    let ghost l = strmap::listing(drv.outputs@);
    let ghost m0 = m@;
    let n: usize = drv.outputs.len();
    assert(l.take(0) =~= Seq::empty());
    for i in 0..n
        invariant
            l == strmap::listing(drv.outputs@),
            n == l.len(),
            m@ == with_outputs(m0, l.take(i as int), base@),
    {
        m.insert(
            drv.outputs.value(i).path.clone(),
            path::join(base, drv.outputs.key(i).as_str()),
        );
        assert(l.take(i + 1).drop_last() =~= l.take(i as int));
    }
    assert(l.take(n as int) =~= l);
}

/// The places of the outputs of one dependency, as far as they are known.
pub open spec fn places_of(
    m: Map<Seq<char>, Seq<char>>,
    outs: Seq<(Seq<char>, OutputView)>,
    known: Map<Seq<char>, Seq<char>>,
) -> Map<Seq<char>, Seq<char>>
    decreases outs.len(),
{
    if outs.len() == 0 {
        m
    } else {
        let rest = places_of(m, outs.drop_last(), known);
        let p = outs.last().1.path;
        if known.contains_key(p) {
            rest.insert(p, known[p])
        } else {
            rest
        }
    }
}

/// The places of the outputs of all dependencies of a unit, as far as they are known.
pub open spec fn dep_places(
    deps: Seq<Seq<char>>,
    nodes: Map<Seq<char>, NodeView>,
    known: Map<Seq<char>, Seq<char>>,
) -> Map<Seq<char>, Seq<char>>
    decreases deps.len(),
{
    if deps.len() == 0 {
        Map::empty()
    } else {
        let rest = dep_places(deps.drop_last(), nodes, known);
        if nodes.contains_key(deps.last()) {
            places_of(rest, strmap::listing(nodes[deps.last()].drv.outputs), known)
        } else {
            rest
        }
    }
}

/// Where the outputs of a unit's dependencies lie: in the cache, or where they are being built.
pub fn dep_map(node: &CrateNode, nodes: &StrMap<CrateNode>, known: &StrMap<String>) -> (r: StrMap<
    String,
>)
    ensures
        r@ == dep_places(node.crate_deps.deep_view(), nodes@, known@),
{
    let ghost deps = node.crate_deps.deep_view();
    let mut out: StrMap<String> = StrMap::new();
    assert(deps.take(0) =~= Seq::empty());
    for i in 0..node.crate_deps.len()
        invariant
            deps == node.crate_deps.deep_view(),
            out@ == dep_places(deps.take(i as int), nodes@, known@),
    {
        assert(deps.take(i + 1).drop_last() =~= deps.take(i as int));
        assert(deps[i as int] == node.crate_deps@[i as int]@);
        if let Some(d) = nodes.get(node.crate_deps[i].as_str()) {
            let outs = &d.drv.outputs;
            let n: usize = outs.len();
            let ghost l = strmap::listing(outs@);
            let ghost m0 = out@;
            assert(l.take(0) =~= Seq::empty());
            for j in 0..n
                invariant
                    l == strmap::listing(outs@),
                    n == l.len(),
                    out@ == places_of(m0, l.take(j as int), known@),
            {
                assert(l.take(j + 1).drop_last() =~= l.take(j as int));
                let p = &outs.value(j).path;
                if let Some(place) = known.get(p.as_str()) {
                    out.insert(p.clone(), place.clone());
                }
            }
            assert(l.take(n as int) =~= l);
        }
    }
    assert(deps.take(deps.len() as int) =~= deps);
    out
}

/// What a run knows of keys, hashes and places, by the paths of the derivations and outputs.
#[verifier::ext_equal]
pub struct RunView {
    /// The keys of units whose key takes in outputs, as far as they are known.
    pub eff_key: Map<Seq<char>, Seq<char>>,
    /// The hashes of the full outputs of units.
    pub propagated: Map<Seq<char>, Seq<char>>,
    /// The hashes of the interfaces of units.
    pub early: Map<Seq<char>, Seq<char>>,
    /// Where the outputs of units lie.
    pub output_map: Map<Seq<char>, Seq<char>>,
}

/// What a dependency propagates to a unit. A unit that does not link goes by the interface; one
/// that does, or where the interface has no hash, by the full output. A dependency without either
/// hash propagates its own key.
pub open spec fn propagated_to(
    v: RunView,
    keyed: Set<Seq<char>>,
    links: bool,
    d: Seq<char>,
) -> Option<Seq<char>> {
    if !keyed.contains(d) {
        None
    } else if !links && v.early.contains_key(d) {
        Some(v.early[d])
    } else if v.propagated.contains_key(d) {
        Some(v.propagated[d])
    } else {
        overrides::value_at(v.eff_key, d)
    }
}

/// All that dependencies propagate to a unit.
pub open spec fn all_propagated(v: RunView, keyed: Set<Seq<char>>, links: bool) -> Map<
    Seq<char>,
    Seq<char>,
> {
    Map::new(
        |d: Seq<char>| propagated_to(v, keyed, links, d) is Some,
        |d: Seq<char>| propagated_to(v, keyed, links, d)->Some_0,
    )
}

/// How a unit was finished.
pub enum Outcome {
    /// It was built, with these hashes of what was committed.
    Built { out_hash: Option<String>, early_hash: Option<String> },
    /// Its build failed.
    Failed,
}

/// A map with one more pair, if there is one.
pub open spec fn noted(
    m: Map<Seq<char>, Seq<char>>,
    k: Seq<char>,
    v: Option<String>,
) -> Map<Seq<char>, Seq<char>> {
    match v {
        Some(h) => m.insert(k, h@),
        None => m,
    }
}

fn note(m: &mut StrMap<String>, k: &str, v: Option<String>)
    ensures
        final(m)@ == noted(old(m)@, k@, v),
{
    match v {
        Some(h) => {
            m.insert(k.to_owned(), h);
        },
        None => {},
    }
}

/// The result of a run: how many units failed, and the key of every unit.
pub struct SchedulerResult {
    pub failed: usize,
    pub keys: StrMap<String>,
}

/// A run over a build graph.
pub struct Run<'a> {
    pub graph: &'a BuildGraph,
    pub cache: &'a ArtifactCache,
    pub own: &'a StrMap<OwnHash>,
    pub keyed: &'a StrSet,
    pub links: &'a StrSet,
    pub state: SharedState,
    pub eff_key: StrMap<String>,
    pub propagated: StrMap<String>,
    pub early: StrMap<String>,
    pub output_map: StrMap<String>,
}

impl<'a> View for Run<'a> {
    type V = RunView;

    open spec fn view(&self) -> RunView {
        RunView {
            eff_key: self.eff_key@,
            propagated: self.propagated@,
            early: self.early@,
            output_map: self.output_map@,
        }
    }
}

impl<'a> Run<'a> {
    /// The nodes of the graph.
    pub open spec fn nodes(&self) -> Map<Seq<char>, NodeView> {
        self.graph.nodes@
    }

    /// The root of the cache.
    pub open spec fn root(&self) -> Seq<char> {
        self.cache@
    }

    /// The hashes of own source.
    pub open spec fn own_hashes(&self) -> Map<Seq<char>, overrides::OwnView> {
        self.own@
    }

    /// The units whose key takes in outputs.
    pub open spec fn keyed_units(&self) -> Set<Seq<char>> {
        self.keyed@
    }

    /// The units that link.
    pub open spec fn linking_units(&self) -> Set<Seq<char>> {
        self.links@
    }

    /// The path of a unit's derivation: units are numbered in the order of these paths.
    pub open spec fn name(&self, x: usize) -> Seq<char> {
        strmap::listing(self.nodes())[x as int].0
    }

    /// The key of a unit is settled, if its key takes in outputs.
    pub open spec fn settled(&self, x: usize) -> bool {
        self.keyed_units().contains(self.name(x)) ==> self@.eff_key.contains_key(self.name(x))
    }

    /// The scheduling state is well-formed and is of the units of the graph, the key of every unit
    /// whose build began is settled, and keys are settled of units alone whose key takes in outputs.
    pub open spec fn wf(&self) -> bool {
        &&& self.state.wf()
        &&& self.state.status@.len() == strmap::listing(self.nodes()).len()
        &&& forall|x: usize|
            x < self.state.status@.len() && scheduler::begun(#[trigger] self.state.status@[x as int])
                ==> self.settled(x)
        &&& forall|d: Seq<char>| #[trigger]
            self.eff_key@.contains_key(d) ==> self.keyed_units().contains(d)
                && self.nodes().contains_key(d)
    }

    /// Nothing but the scheduling state, the hashes and the places has changed.
    pub open spec fn same_units(&self, from: &Self) -> bool {
        &&& self.nodes() == from.nodes()
        &&& self.root() == from.root()
        &&& self.own_hashes() == from.own_hashes()
        &&& self.keyed_units() == from.keyed_units()
        &&& self.linking_units() == from.linking_units()
    }

    /// The key of a unit: that of its derivation, mixed with its effective hash where its key
    /// takes in outputs.
    pub open spec fn unit_key(&self, x: usize) -> Seq<char> {
        let d = self.name(x);
        if self.keyed_units().contains(d) {
            cache::source_key(
                d,
                overrides::eff(
                    overrides::value_at(self.own_hashes(), d),
                    self.nodes()[d].crate_deps,
                    all_propagated(self@, self.keyed_units(), self.linking_units().contains(d)),
                ),
            )
        } else {
            cache::drv_key(d)
        }
    }

    /// Where a unit is built.
    pub open spec fn tmp_of(&self, x: usize) -> Seq<char> {
        path::joined(path::joined(self.root(), "tmp"@), cache::drv_key(self.name(x)))
    }

    /// The outputs of a unit.
    pub open spec fn outputs_of(&self, x: usize) -> Seq<(Seq<char>, OutputView)> {
        strmap::listing(strmap::listing(self.nodes())[x as int].1.drv.outputs)
    }

    fn gather(&self, d: &str, deps: &Vec<String>) -> (r: StrMap<String>)
        ensures
            forall|i: int|
                0 <= i < deps@.len() ==> overrides::value_at(r@, (#[trigger] deps@[i])@)
                    == propagated_to(
                    self@,
                    self.keyed_units(),
                    self.linking_units().contains(d@),
                    deps@[i]@,
                ),
    {
        let ghost ks = self.keyed_units();
        let ghost lk = self.linking_units().contains(d@);
        let links = self.links.contains(d);
        let mut m: StrMap<String> = StrMap::new();
        for i in 0..deps.len()
            invariant
                ks == self.keyed_units(),
                lk == links,
                forall|k: int|
                    0 <= k < i ==> overrides::value_at(m@, (#[trigger] deps@[k])@)
                        == propagated_to(self@, ks, lk, deps@[k]@),
                forall|x: Seq<char>| #[trigger]
                    m@.contains_key(x) ==> propagated_to(self@, ks, lk, x) == Some(m@[x]),
        {
            let dep = deps[i].as_str();
            let ghost m0 = m@;
            if self.keyed.contains(dep) {
                let first = if links {
                    None
                } else {
                    self.early.get(dep)
                };
                let second = match first {
                    Some(h) => Some(h),
                    None => match self.propagated.get(dep) {
                        Some(h) => Some(h),
                        None => self.eff_key.get(dep),
                    },
                };
                match second {
                    Some(h) => {
                        m.insert(deps[i].clone(), h.clone());
                    },
                    None => {},
                }
            }
            proof {
                assert(overrides::value_at(m@, dep@) == propagated_to(self@, ks, lk, dep@));
                assert forall|k: int| 0 <= k < i + 1 implies overrides::value_at(
                    m@,
                    (#[trigger] deps@[k])@,
                ) == propagated_to(self@, ks, lk, deps@[k]@) by {
                    if k < i && deps@[k]@ != dep@ {
                        assert(overrides::value_at(m0, deps@[k]@) == propagated_to(
                            self@,
                            ks,
                            lk,
                            deps@[k]@,
                        ));
                    }
                }
            }
        }
        m
    }

    /// What the build of a unit overrides: its effective hash, and the directory of its own source
    /// if that is watched, where its key takes in outputs.
    pub open spec fn override_for(&self, x: usize) -> Option<OverrideView> {
        let d = self.name(x);
        if self.keyed_units().contains(d) {
            Some(
                OverrideView {
                    src_path: match overrides::value_at(self.own_hashes(), d) {
                        Some(o) => Some(o.src_dir),
                        None => None,
                    },
                    source_hash: overrides::eff(
                        overrides::value_at(self.own_hashes(), d),
                        self.nodes()[d].crate_deps,
                        all_propagated(self@, self.keyed_units(), self.linking_units().contains(d)),
                    ),
                },
            )
        } else {
            None
        }
    }

    /// Gives what the build of a unit overrides. What is built with it is committed under the
    /// unit's key.
    pub fn source_override(&self, x: usize) -> (r: Option<SourceOverride>)
        requires
            self.wf(),
            x < self.state.status@.len(),
        ensures
            match r {
                Some(o) => self.override_for(x) == Some(o.deep_view()),
                None => self.override_for(x) is None,
            },
            executor::effective(self.name(x), self.override_for(x)) == self.unit_key(x),
    {
        let ghost l = strmap::listing(self.nodes());
        let n: usize = self.graph.nodes.len();
        let d = self.graph.nodes.key(x).clone();
        let node = self.graph.nodes.value(x);
        proof {
            strmap::ascending_index(l, x as int);
        }
        if !self.keyed.contains(d.as_str()) {
            return None;
        }
        let props = self.gather(d.as_str(), &node.crate_deps);
        let mine = self.own.get(d.as_str());
        let h = overrides::eff_hash(mine, &node.crate_deps, &props);
        proof {
            let deps = node.crate_deps.deep_view();
            let want = all_propagated(
                self@,
                self.keyed_units(),
                self.linking_units().contains(d@),
            );
            assert forall|i: int| 0 <= i < deps.len() implies overrides::value_at(
                props@,
                #[trigger] deps[i],
            ) == overrides::value_at(want, deps[i]) by {
                assert(deps[i] == node.crate_deps@[i]@);
            }
            overrides::unchanged_outputs_keep_the_hash(
                overrides::value_at(self.own_hashes(), d@),
                deps,
                props@,
                want,
            );
        }
        let src_path = match mine {
            Some(o) => Some(o.src_dir.clone()),
            None => None,
        };
        Some(SourceOverride { src_path, source_hash: h })
    }

    /// Settles the key of a unit that was taken. Every dependency whose hash counts has come far
    /// enough for it to be known.
    pub fn take_key(&mut self, x: usize) -> (r: String)
        requires
            old(self).wf(),
            x < old(self).state.status@.len(),
        ensures
            r@ == old(self).unit_key(x),
            final(self).wf(),
            final(self).settled(x),
            final(self).same_units(old(self)),
            final(self).state == old(self).state,
            final(self)@ == (RunView {
                eff_key: if old(self).keyed_units().contains(old(self).name(x)) {
                    old(self)@.eff_key.insert(old(self).name(x), r@)
                } else {
                    old(self)@.eff_key
                },
                ..old(self)@
            }),
    {
        let n: usize = self.graph.nodes.len();
        let d = self.graph.nodes.key(x).clone();
        let ov = self.source_override(x);
        let key = executor::effective_key(
            d.as_str(),
            match &ov {
                Some(o) => Some(o),
                None => None,
            },
        );
        proof {
            strmap::ascending_index(strmap::listing(self.nodes()), x as int);
        }
        if self.keyed.contains(d.as_str()) {
            self.eff_key.insert(d, key.clone());
        }
        key
    }
}

/// What a worker does next.
pub enum Step {
    /// Nothing is left to do.
    Stop,
    /// Something is being built that others wait for.
    Wait,
    /// To look whether the unit lies in the cache under the key, and to build it with the override
    /// where it does not.
    Look { unit: usize, key: String, src: Option<SourceOverride> },
}

impl<'a> Run<'a> {
    /// Unit `x` of the run `from` was handed to a worker, and its key is settled where it takes in
    /// outputs.
    pub open spec fn was_handed_out(&self, from: &Self, x: usize, key: Seq<char>) -> bool {
        &&& self.state.ready@ == from.state.ready@.drop_last()
        &&& self.state.status@ == from.state.status@.update(x as int, Status::Taken)
        &&& self@ == (RunView {
            eff_key: if from.keyed_units().contains(from.name(x)) {
                from@.eff_key.insert(from.name(x), key)
            } else {
                from@.eff_key
            },
            ..from@
        })
    }

    /// Tells a worker what to do. A unit that it is handed is taken, and its key is settled.
    pub fn step(&mut self) -> (r: Step)
        requires
            old(self).wf(),
        ensures
            final(self).wf(),
            final(self).same_units(old(self)),
            match r {
                Step::Stop => {
                    &&& old(self).state.is_over()
                    &&& final(self).state == old(self).state
                    &&& final(self)@ == old(self)@
                },
                Step::Wait => {
                    &&& !old(self).state.is_over()
                    &&& old(self).state.ready@.len() == 0
                    &&& final(self).state == old(self).state
                    &&& final(self)@ == old(self)@
                },
                Step::Look { unit, key, src } => {
                    &&& !old(self).state.is_over()
                    &&& old(self).state.ready@.len() > 0
                    &&& unit == old(self).state.ready@.last()
                    &&& unit < old(self).state.status@.len()
                    &&& final(self).was_handed_out(old(self), unit, key@)
                    &&& final(self).state == (SharedState {
                        status: final(self).state.status,
                        ready: final(self).state.ready,
                        ..old(self).state
                    })
                    &&& final(self).state.ready@ == old(self).state.ready@.drop_last()
                    &&& final(self).state.status@ == old(self).state.status@.update(
                        unit as int,
                        Status::Taken,
                    )
                    &&& key@ == old(self).unit_key(unit)
                    &&& match src {
                        Some(o) => old(self).override_for(unit) == Some(o.deep_view()),
                        None => old(self).override_for(unit) is None,
                    }
                    &&& executor::effective(
                        old(self).name(unit),
                        old(self).override_for(unit),
                    ) == key@
                    &&& final(self).settled(unit)
                    &&& final(self)@ == (RunView {
                        eff_key: if old(self).keyed_units().contains(old(self).name(unit)) {
                            old(self)@.eff_key.insert(old(self).name(unit), key@)
                        } else {
                            old(self)@.eff_key
                        },
                        ..old(self)@
                    })
                },
            },
    {
        match self.state.next() {
            Next::Stop => Step::Stop,
            Next::Wait => Step::Wait,
            Next::Unit(unit) => {
                assert(self.wf());
                let src = self.source_override(unit);
                let key = self.take_key(unit);
                Step::Look { unit, key, src }
            },
        }
    }
}

/// Whether a unit is in the cache from the start: its key is that of its derivation, something lies
/// there under it, and that will do. `artifacts` gives for each key under which something lies the
/// names in its `lib/lib`.
pub open spec fn hit_upfront(
    nodes: Map<Seq<char>, NodeView>,
    keyed: Set<Seq<char>>,
    roots: Seq<Seq<char>>,
    backends: Seq<&dyn Backend>,
    repo: RepoView,
    artifacts: Map<Seq<char>, Seq<Seq<char>>>,
    d: Seq<char>,
) -> bool {
    let key = cache::drv_key(d);
    &&& nodes.contains_key(d)
    &&& !keyed.contains(d)
    &&& artifacts.contains_key(key)
    &&& roots.contains(d) ==> backends[backend::owner(backends, d, nodes[d].drv, repo)].will_do(
        nodes[d].drv,
        artifacts[key],
    )
}

fn is_root(roots: &Vec<String>, d: &str) -> (r: bool)
    ensures
        r == roots.deep_view().contains(d@),
{
    for i in 0..roots.len()
        invariant
            forall|k: int| 0 <= k < i ==> (#[trigger] roots.deep_view()[k]) != d@,
    {
        if text::str_eq(roots[i].as_str(), d) {
            assert(roots.deep_view()[i as int] == d@);
            return true;
        }
    }
    false
}

/// Gives the units that are in the cache from the start. The others are scheduled: for one whose
/// key takes in outputs, the key is known only when it is ready.
pub fn cached_upfront(
    g: &BuildGraph,
    keyed: &StrSet,
    roots: &Vec<String>,
    backends: &Vec<&dyn Backend>,
    repo: &RepoFacts,
    artifacts: &StrMap<Vec<String>>,
) -> (r: StrSet)
    requires
        backends@.len() > 0,
    ensures
        forall|d: Seq<char>| #[trigger]
            r@.contains(d) <==> hit_upfront(
                g.nodes@,
                keyed@,
                roots.deep_view(),
                backends@,
                repo.deep_view(),
                artifacts@,
                d,
            ),
{
    let ghost nodes = g.nodes@;
    let ghost l = strmap::listing(g.nodes@);
    let ghost ro = roots.deep_view();
    let ghost rp = repo.deep_view();
    let n: usize = g.nodes.len();
    let mut out = StrSet::new();
    for i in 0..n
        invariant
            nodes == g.nodes@,
            l == strmap::listing(g.nodes@),
            ro == roots.deep_view(),
            rp == repo.deep_view(),
            strmap::ascending(l),
            strmap::as_map(l) == nodes,
            n == l.len(),
            backends@.len() > 0,
            forall|d: Seq<char>| #[trigger]
                out@.contains(d) <==> strmap::has_key(l.take(i as int), d) && hit_upfront(
                    nodes,
                    keyed@,
                    ro,
                    backends@,
                    rp,
                    artifacts@,
                    d,
                ),
    {
        let path = g.nodes.key(i);
        let node = g.nodes.value(i);
        let ghost before = out@;
        proof {
            strmap::ascending_index(l, i as int);
            assert(strmap::has_key(l, path@));
            assert(nodes.contains_key(path@));
            assert(nodes[path@] == node.deep_view());
        }
        let key = ArtifactCache::cache_key(path.as_str());
        let found = if keyed.contains(path.as_str()) {
            None
        } else {
            artifacts.get(key.as_str())
        };
        let hit = match found {
            None => false,
            Some(names) => {
                let b: usize = backend::backend_for(backends, path.as_str(), &node.drv, repo);
                let root = is_root(roots, path.as_str());
                backend::cached_artifact_ok(true, root, backends[b], &node.drv, names)
            },
        };
        assert(hit == hit_upfront(nodes, keyed@, ro, backends@, rp, artifacts@, path@));
        if hit {
            out.insert(path.clone());
        }
        proof {
            assert forall|d: Seq<char>| #[trigger]
                out@.contains(d) <==> strmap::has_key(l.take(i + 1), d) && hit_upfront(
                    nodes,
                    keyed@,
                    ro,
                    backends@,
                    rp,
                    artifacts@,
                    d,
                ) by {
                strmap::one_more_key(l, i as int, d);
                assert(before.contains(d) <==> strmap::has_key(l.take(i as int), d) && hit_upfront(
                    nodes,
                    keyed@,
                    ro,
                    backends@,
                    rp,
                    artifacts@,
                    d,
                ));
            }
        }
    }
    proof {
        assert(l.take(n as int) =~= l);
        assert forall|d: Seq<char>| nodes.contains_key(d) <==> #[trigger] strmap::has_key(l, d) by {
            assert(strmap::as_map(l).contains_key(d) <==> strmap::has_key(l, d));
        }
    }
    out
}

/// The facts of a graph: units are numbered in the order of their paths.
pub open spec fn facts_of_graph(
    f: &Facts,
    nodes: Map<Seq<char>, NodeView>,
    keyed: Set<Seq<char>>,
    cached: Set<Seq<char>>,
    pipelineable: Set<Seq<char>>,
    links: Set<Seq<char>>,
) -> bool {
    let l = strmap::listing(nodes);
    &&& f.wf()
    &&& graph::numbered(l, topo::lists(f.deps@))
    &&& forall|x: int| 0 <= x < l.len() ==> (#[trigger] f.keyed@[x]) == keyed.contains(l[x].0)
    &&& forall|x: int| 0 <= x < l.len() ==> (#[trigger] f.cached@[x]) == cached.contains(l[x].0)
    &&& forall|x: int|
        0 <= x < l.len() ==> (#[trigger] f.pipelineable@[x]) == pipelineable.contains(l[x].0)
    &&& forall|x: int| 0 <= x < l.len() ==> (#[trigger] f.links@[x]) == links.contains(l[x].0)
}

/// Collects the facts of a graph.
pub fn gather_facts(
    g: &BuildGraph,
    keyed: &StrSet,
    cached: &StrSet,
    pipelineable: &StrSet,
    links: &StrSet,
) -> (f: Facts)
    ensures
        facts_of_graph(&f, g.nodes@, keyed@, cached@, pipelineable@, links@),
{
    let ghost l = strmap::listing(g.nodes@);
    let n: usize = g.nodes.len();
    let deps = graph::number_nodes(&g.nodes);
    let mut k: Vec<bool> = Vec::new();
    let mut c: Vec<bool> = Vec::new();
    let mut p: Vec<bool> = Vec::new();
    let mut s: Vec<bool> = Vec::new();
    for i in 0..n
        invariant
            l == strmap::listing(g.nodes@),
            n == l.len(),
            k@.len() == i,
            c@.len() == i,
            p@.len() == i,
            s@.len() == i,
            forall|x: int| 0 <= x < i ==> (#[trigger] k@[x]) == keyed@.contains(l[x].0),
            forall|x: int| 0 <= x < i ==> (#[trigger] c@[x]) == cached@.contains(l[x].0),
            forall|x: int| 0 <= x < i ==> (#[trigger] p@[x]) == pipelineable@.contains(l[x].0),
            forall|x: int| 0 <= x < i ==> (#[trigger] s@[x]) == links@.contains(l[x].0),
    {
        let d = g.nodes.key(i).as_str();
        k.push(keyed.contains(d));
        c.push(cached.contains(d));
        p.push(pipelineable.contains(d));
        s.push(links.contains(d));
    }
    Facts { deps, keyed: k, cached: c, pipelineable: p, links: s }
}

/// The places of the outputs of the units that are in the cache from the start.
pub open spec fn cached_outputs(
    root: Seq<char>,
    l: Seq<(Seq<char>, NodeView)>,
    status: Seq<Status>,
) -> Map<Seq<char>, Seq<char>>
    decreases l.len(),
{
    if l.len() == 0 {
        Map::empty()
    } else {
        let rest = cached_outputs(root, l.drop_last(), status);
        if status[l.len() - 1] == Status::Idle {
            with_outputs(
                rest,
                strmap::listing(l.last().1.drv.outputs),
                cache::artifact_path(root, cache::drv_key(l.last().0)),
            )
        } else {
            rest
        }
    }
}

impl<'a> Run<'a> {
    /// A run that has not begun. Units that are not scheduled lie in the cache.
    pub fn new(
        graph: &'a BuildGraph,
        cache: &'a ArtifactCache,
        own: &'a StrMap<OwnHash>,
        keyed: &'a StrSet,
        links: &'a StrSet,
        f: &Facts,
    ) -> (r: Self)
        requires
            f.wf(),
            f.deps@.len() == strmap::listing(graph.nodes@).len(),
        ensures
            r.wf(),
            r.nodes() == graph.nodes@,
            r.root() == cache@,
            r.own_hashes() == own@,
            r.keyed_units() == keyed@,
            r.linking_units() == links@,
            r.state.status@.len() == f.deps@.len(),
            forall|x: usize|
                x < f.deps@.len() ==> (#[trigger] r.state.early_deps@[x as int])@ == f.edges_of(
                    x,
                    true,
                ),
            forall|x: usize|
                x < f.deps@.len() ==> (#[trigger] r.state.done_deps@[x as int])@ == f.edges_of(
                    x,
                    false,
                ),
            forall|x: usize|
                x < f.deps@.len() ==> #[trigger] r.state.status@[x as int] == if !f.scheduled(x) {
                    Status::Idle
                } else if f.edges_of(x, true).len() == 0 && f.edges_of(x, false).len() == 0 {
                    Status::Ready
                } else {
                    Status::Waiting
                },
            r.state.succeeded == 0,
            r.state.late_cached == 0,
            r.state.failed == 0,
            r.state.in_flight == 0,
            r@ == (RunView {
                eff_key: Map::empty(),
                propagated: Map::empty(),
                early: Map::empty(),
                output_map: cached_outputs(
                    cache@,
                    strmap::listing(graph.nodes@),
                    r.state.status@,
                ),
            }),
    {
        let state = SharedState::plan(f);
        let ghost l = strmap::listing(graph.nodes@);
        let ghost st = state.status@;
        let n: usize = graph.nodes.len();
        let mut output_map: StrMap<String> = StrMap::new();
        for i in 0..n
            invariant
                l == strmap::listing(graph.nodes@),
                n == l.len(),
                st == state.status@,
                st.len() == n,
                output_map@ == cached_outputs(cache@, l.take(i as int), st),
        {
            assert(l.take(i + 1).drop_last() =~= l.take(i as int));
            if state.status[i] == Status::Idle {
                let base = cache.artifact_dir(graph.nodes.key(i).as_str());
                register_outputs(&mut output_map, &graph.nodes.value(i).drv, base.as_str());
            }
        }
        assert(l.take(n as int) =~= l);
        Run {
            graph,
            cache,
            own,
            keyed,
            links,
            state,
            eff_key: StrMap::new(),
            propagated: StrMap::new(),
            early: StrMap::new(),
            output_map,
        }
    }

    /// Unit `x` of the run `from` was found in the cache under `key`, with these hashes beside it:
    /// it is done without a build, its outputs lie there, and its dependents go by the hashes.
    pub open spec fn was_found(
        &self,
        from: &Self,
        x: usize,
        key: Seq<char>,
        out_hash: Option<String>,
        early_hash: Option<String>,
    ) -> bool {
        &&& self.state.completed(&from.state, x)
        &&& self.state.late_cached == from.state.late_cached + 1
        &&& self.state.succeeded == from.state.succeeded
        &&& self.state.in_flight == from.state.in_flight
        &&& self@ == (RunView {
            eff_key: from@.eff_key,
            propagated: noted(from@.propagated, from.name(x), out_hash),
            early: noted(from@.early, from.name(x), early_hash),
            output_map: with_outputs(
                from@.output_map,
                from.outputs_of(x),
                cache::artifact_path(from.root(), key),
            ),
        })
    }

    /// The build of unit `x` of the run `from` has begun: its outputs will lie where it is built,
    /// and the outputs of its dependencies lie where `deps` says.
    pub open spec fn has_begun(
        &self,
        from: &Self,
        x: usize,
        deps: Map<Seq<char>, Seq<char>>,
    ) -> bool {
        &&& self.state.status@ == from.state.status@.update(x as int, Status::Running)
        &&& self.state.in_flight == from.state.in_flight + 1
        &&& self.state == (SharedState {
            status: self.state.status,
            in_flight: self.state.in_flight,
            ..from.state
        })
        &&& self@ == (RunView {
            output_map: with_outputs(from@.output_map, from.outputs_of(x), from.tmp_of(x)),
            ..from@
        })
        &&& deps == dep_places(
            strmap::listing(from.nodes())[x as int].1.crate_deps,
            from.nodes(),
            self@.output_map,
        )
    }

    /// Whether what lies in the cache will do for unit `x`: something is there, and for a target it
    /// holds what a target needs.
    pub open spec fn will_do<B: Backend + ?Sized>(
        &self,
        x: usize,
        names: Option<Seq<Seq<char>>>,
        is_root: bool,
        backend: &B,
    ) -> bool {
        match names {
            Some(n) => is_root ==> backend.will_do(
                strmap::listing(self.nodes())[x as int].1.drv,
                n,
            ),
            None => false,
        }
    }

    /// Decides about a unit that was taken, from the names in the `lib/lib` of what lies in the
    /// cache under its key, if something does, and the hashes beside it. Where that will do the
    /// unit is skipped; else its build begins, with the places of the outputs of its dependencies.
    pub fn look<B: Backend + ?Sized>(
        &mut self,
        x: usize,
        key: &str,
        names: Option<&Vec<String>>,
        is_root: bool,
        backend: &B,
        out_hash: Option<String>,
        early_hash: Option<String>,
    ) -> (r: Option<StrMap<String>>)
        requires
            old(self).wf(),
            x < old(self).state.status@.len(),
            old(self).state.status@[x as int] == Status::Taken,
            old(self).settled(x),
        ensures
            final(self).wf(),
            final(self).same_units(old(self)),
            ({
                let hit = old(self).will_do(
                    x,
                    match names {
                        Some(n) => Some(n.deep_view()),
                        None => None,
                    },
                    is_root,
                    backend,
                );
                match r {
                    None => hit && final(self).was_found(
                        old(self),
                        x,
                        key@,
                        out_hash,
                        early_hash,
                    ),
                    Some(deps) => !hit && final(self).has_begun(old(self), x, deps@),
                }
            }),
    {
        let n: usize = self.graph.nodes.len();
        let hit = match names {
            Some(l) => backend::cached_artifact_ok(
                true,
                is_root,
                backend,
                &self.graph.nodes.value(x).drv,
                l,
            ),
            None => false,
        };
        if hit {
            self.late_hit(x, key, out_hash, early_hash);
            None
        } else {
            Some(self.start(x))
        }
    }

    /// Completes a unit that was taken and whose key is in the cache: its outputs lie there, and
    /// its dependents go by the hashes beside them.
    pub fn late_hit(
        &mut self,
        x: usize,
        key: &str,
        out_hash: Option<String>,
        early_hash: Option<String>,
    )
        requires
            old(self).wf(),
            x < old(self).state.status@.len(),
            old(self).state.status@[x as int] == Status::Taken,
            old(self).settled(x),
        ensures
            final(self).wf(),
            final(self).same_units(old(self)),
            final(self).was_found(old(self), x, key@, out_hash, early_hash),
    {
        let n: usize = self.graph.nodes.len();
        let d = self.graph.nodes.key(x).clone();
        let base = self.cache.artifact_dir_by_key(key);
        register_outputs(&mut self.output_map, &self.graph.nodes.value(x).drv, base.as_str());
        note(&mut self.propagated, d.as_str(), out_hash);
        note(&mut self.early, d.as_str(), early_hash);
        self.state.late_hit(x);
    }

    /// Starts to build a unit that was taken. Its outputs will lie where it is built, so that
    /// dependents which start before it is done find them. Gives the places of the outputs of its
    /// dependencies.
    pub fn start(&mut self, x: usize) -> (r: StrMap<String>)
        requires
            old(self).wf(),
            x < old(self).state.status@.len(),
            old(self).state.status@[x as int] == Status::Taken,
            old(self).settled(x),
        ensures
            final(self).wf(),
            final(self).same_units(old(self)),
            final(self).has_begun(old(self), x, r@),
    {
        let n: usize = self.graph.nodes.len();
        self.state.start(x);
        let base = self.cache.tmp_dir(self.graph.nodes.key(x).as_str());
        register_outputs(&mut self.output_map, &self.graph.nodes.value(x).drv, base.as_str());
        dep_map(self.graph.nodes.value(x), &self.graph.nodes, &self.output_map)
    }

    /// Unit `x` of the run `from` has signalled, with the hash of its interface.
    pub open spec fn has_signalled(
        &self,
        from: &Self,
        x: usize,
        early_hash: Option<String>,
    ) -> bool {
        &&& self.state.early_fired@ == from.state.early_fired@.update(x as int, true)
        &&& self.state.released(
            &from.state,
            from.state.fired().insert(x),
            from.state.done(),
        )
        &&& self@ == (RunView {
            early: noted(from@.early, from.name(x), early_hash),
            ..from@
        })
    }

    /// Notes the signal of a unit that is being built, with the hash of its interface.
    pub fn signal(&mut self, x: usize, early_hash: Option<String>)
        requires
            old(self).wf(),
            x < old(self).state.status@.len(),
            old(self).state.status@[x as int] == Status::Running,
        ensures
            final(self).wf(),
            final(self).same_units(old(self)),
            old(self).state.early_fired@[x as int] ==> final(self).state == old(self).state,
            final(self).has_signalled(old(self), x, early_hash),
            final(self).state.early_fired@ == old(self).state.early_fired@.update(x as int, true),
            final(self).state.released(
                &old(self).state,
                old(self).state.fired().insert(x),
                old(self).state.done(),
            ),
            final(self)@ == (RunView {
                early: noted(old(self)@.early, old(self).name(x), early_hash),
                ..old(self)@
            }),
    {
        let n: usize = self.graph.nodes.len();
        let d = self.graph.nodes.key(x).clone();
        note(&mut self.early, d.as_str(), early_hash);
        self.state.fire_early(x);
    }

    /// Unit `x` of the run `from` was built, with these hashes: it is done. The hashes of one whose
    /// key takes in outputs are kept for its dependents.
    pub open spec fn was_built(
        &self,
        from: &Self,
        x: usize,
        out_hash: Option<String>,
        early_hash: Option<String>,
    ) -> bool {
        &&& self.state.completed(&from.state, x)
        &&& self.state.succeeded == from.state.succeeded + 1
        &&& self.state.late_cached == from.state.late_cached
        &&& self@ == if from.keyed_units().contains(from.name(x)) {
            RunView {
                propagated: noted(from@.propagated, from.name(x), out_hash),
                early: noted(from@.early, from.name(x), early_hash),
                ..from@
            }
        } else {
            from@
        }
    }

    /// Finishes a unit that is being built. The hashes of one whose key takes in outputs are kept
    /// for its dependents.
    pub fn finish(&mut self, x: usize, outcome: Outcome)
        requires
            old(self).wf(),
            x < old(self).state.status@.len(),
            old(self).state.status@[x as int] == Status::Running,
        ensures
            final(self).wf(),
            final(self).same_units(old(self)),
            final(self).state.in_flight == old(self).state.in_flight - 1,
            match outcome {
                Outcome::Built { out_hash, early_hash } => {
                    &&& final(self).was_built(old(self), x, out_hash, early_hash)
                    &&& final(self).state.completed(&old(self).state, x)
                    &&& final(self).state.succeeded == old(self).state.succeeded + 1
                    &&& final(self).state.late_cached == old(self).state.late_cached
                    &&& final(self)@ == if old(self).keyed_units().contains(old(self).name(x)) {
                        RunView {
                            propagated: noted(old(self)@.propagated, old(self).name(x), out_hash),
                            early: noted(old(self)@.early, old(self).name(x), early_hash),
                            ..old(self)@
                        }
                    } else {
                        old(self)@
                    }
                },
                Outcome::Failed => {
                    &&& final(self).state.status@ == old(self).state.status@.update(
                        x as int,
                        Status::Failed,
                    )
                    &&& final(self).state.failed == old(self).state.failed + 1
                    &&& final(self).state.abort
                    &&& final(self).state == (SharedState {
                        status: final(self).state.status,
                        failed: final(self).state.failed,
                        abort: final(self).state.abort,
                        in_flight: final(self).state.in_flight,
                        ..old(self).state
                    })
                    &&& final(self)@ == old(self)@
                },
            },
    {
        let n: usize = self.graph.nodes.len();
        match outcome {
            Outcome::Failed => {
                self.state.fail(x);
            },
            Outcome::Built { out_hash, early_hash } => {
                let d = self.graph.nodes.key(x).clone();
                if self.keyed.contains(d.as_str()) {
                    note(&mut self.propagated, d.as_str(), out_hash);
                    note(&mut self.early, d.as_str(), early_hash);
                }
                self.state.succeed(x);
            },
        }
    }

    /// The key of every unit: the one that was settled, or that of its derivation.
    pub fn result(&self) -> (r: SchedulerResult)
        requires
            self.wf(),
        ensures
            r.failed == self.state.failed,
            r.keys@.dom() == self.nodes().dom(),
            forall|d: Seq<char>| #[trigger]
                r.keys@.contains_key(d) ==> r.keys@[d] == if self@.eff_key.contains_key(d) {
                    self@.eff_key[d]
                } else {
                    cache::drv_key(d)
                },
            forall|d: Seq<char>| #[trigger]
                r.keys@.contains_key(d) && !self.keyed_units().contains(d) ==> r.keys@[d]
                    == cache::drv_key(d),
    {
        let mut keys: StrMap<String> = StrMap::new();
        let m: usize = self.eff_key.len();
        let ghost el = strmap::listing(self.eff_key@);
        assert(strmap::as_map(el.take(0)) =~= Map::empty());
        for i in 0..m
            invariant
                el == strmap::listing(self.eff_key@),
                strmap::ascending(el),
                m == el.len(),
                keys@ == strmap::as_map(el.take(i as int)),
        {
            proof {
                strmap::take_map(el, i as int);
            }
            keys.insert(self.eff_key.key(i).clone(), self.eff_key.value(i).clone());
        }
        assert(el.take(m as int) =~= el);
        let n: usize = self.graph.nodes.len();
        let ghost l = strmap::listing(self.nodes());
        for i in 0..n
            invariant
                l == strmap::listing(self.nodes()),
                n == l.len(),
                forall|d: Seq<char>| #[trigger]
                    keys@.contains_key(d) <==> self@.eff_key.contains_key(d) || strmap::has_key(
                        l.take(i as int),
                        d,
                    ),
                forall|d: Seq<char>| #[trigger]
                    keys@.contains_key(d) ==> keys@[d] == if self@.eff_key.contains_key(d) {
                        self@.eff_key[d]
                    } else {
                        cache::drv_key(d)
                    },
        {
            let d = self.graph.nodes.key(i);
            let ghost before = keys@;
            if !keys.contains_key(d.as_str()) {
                keys.insert(d.clone(), ArtifactCache::cache_key(d.as_str()));
            }
            proof {
                assert forall|e: Seq<char>| #[trigger] keys@.contains_key(e)
                    <==> self@.eff_key.contains_key(e) || strmap::has_key(l.take(i + 1), e) by {
                    assert(before.contains_key(e) <==> self@.eff_key.contains_key(e)
                        || strmap::has_key(l.take(i as int), e));
                    strmap::one_more_key(l, i as int, e);
                }
            }
        }
        proof {
            assert(l.take(n as int) =~= l);
            assert forall|d: Seq<char>| #[trigger] keys@.contains_key(d)
                <==> self@.eff_key.contains_key(d) || self.nodes().contains_key(d) by {
                assert(strmap::as_map(l).contains_key(d) <==> strmap::has_key(l, d));
            }
            assert(keys@.dom() =~= self.nodes().dom());
        }
        SchedulerResult { failed: self.state.failed, keys }
    }
}

/// The cutoff: the key of a unit depends on other units only through what its dependencies
/// propagate to it. Where they are built anew to the same outputs, it stays.
pub proof fn same_outputs_same_key(a: &Run, b: &Run, x: usize)
    requires
        b.same_units(a),
        x < strmap::listing(a.nodes()).len(),
        forall|i: int|
            0 <= i < a.nodes()[a.name(x)].crate_deps.len() ==> propagated_to(
                a@,
                a.keyed_units(),
                a.linking_units().contains(a.name(x)),
                #[trigger] a.nodes()[a.name(x)].crate_deps[i],
            ) == propagated_to(
                b@,
                b.keyed_units(),
                b.linking_units().contains(b.name(x)),
                a.nodes()[a.name(x)].crate_deps[i],
            ),
    ensures
        b.unit_key(x) == a.unit_key(x),
{
    let d = a.name(x);
    let deps = a.nodes()[d].crate_deps;
    let p = all_propagated(a@, a.keyed_units(), a.linking_units().contains(d));
    let q = all_propagated(b@, b.keyed_units(), b.linking_units().contains(d));
    assert forall|i: int| 0 <= i < deps.len() implies overrides::value_at(p, #[trigger] deps[i])
        == overrides::value_at(q, deps[i]) by {
        assert(propagated_to(a@, a.keyed_units(), a.linking_units().contains(d), deps[i])
            == propagated_to(b@, b.keyed_units(), b.linking_units().contains(d), deps[i]));
    }
    overrides::unchanged_outputs_keep_the_hash(
        overrides::value_at(a.own_hashes(), d),
        deps,
        p,
        q,
    );
}

/// The hash of every dependency that counts is known when a unit is taken: the key that is settled
/// then stands on what the dependencies were built to, or at least on their keys.
pub proof fn taken_units_know_their_hashes(r: &Run, f: &Facts, x: usize, d: usize)
    requires
        r.wf(),
        f.wf(),
        f.deps@.len() == r.state.status@.len(),
        forall|y: usize|
            y < f.deps@.len() ==> (#[trigger] r.state.early_deps@[y as int])@ == f.edges_of(
                y,
                true,
            ),
        forall|y: usize|
            y < f.deps@.len() ==> (#[trigger] r.state.done_deps@[y as int])@ == f.edges_of(
                y,
                false,
            ),
        forall|y: usize|
            y < f.deps@.len() ==> (#[trigger] f.keyed@[y as int]) == r.keyed_units().contains(
                r.name(y),
            ),
        x < f.deps@.len(),
        d < f.deps@.len(),
        r.state.status@[x as int] == Status::Taken,
        f.scheduled(x),
        f.deps@[x as int]@.contains(d),
        r.keyed_units().contains(r.name(d)),
    ensures
        propagated_to(
            r@,
            r.keyed_units(),
            r.linking_units().contains(r.name(x)),
            r.name(d),
        ) is Some,
{
    let s = r.state;
    assert(f.keyed@[d as int]);
    scheduler::edges_are_scheduled(f, f.deps@[x as int]@, x, true, d);
    scheduler::edges_are_scheduled(f, f.deps@[x as int]@, x, false, d);
    assert(s.early_deps@[x as int]@ == f.edges_of(x, true));
    assert(s.done_deps@[x as int]@ == f.edges_of(x, false));
    scheduler::ready_units_wait_for_nothing(&s, x, d);
    if f.early_ok(d, x) {
        assert(topo::depends(topo::lists(s.early_deps@), x, d));
        assert(s.early_fired@[d as int]);
    } else {
        assert(topo::depends(topo::lists(s.done_deps@), x, d));
    }
    assert(scheduler::begun(s.status@[d as int]));
    assert(r.settled(d));
}

/// A hash that is noted is known from then on, instead of any before; all other hashes stay, and
/// where there is none to note all do.
pub proof fn noting_keeps_the_last(
    m: Map<Seq<char>, Seq<char>>,
    k: Seq<char>,
    v: Option<String>,
    e: Seq<char>,
)
    ensures
        v matches Some(h) ==> noted(m, k, v).contains_key(k) && noted(m, k, v)[k] == h@,
        v is None ==> noted(m, k, v) == m,
        e != k ==> (noted(m, k, v).contains_key(e) <==> m.contains_key(e)),
        e != k && m.contains_key(e) ==> noted(m, k, v)[e] == m[e],
{
}

/// Before a run a unit is taken from the cache exactly where its key is that of its derivation,
/// something lies there under it, and, for a target, that will do.
pub proof fn upfront_hits_are_sound(
    nodes: Map<Seq<char>, NodeView>,
    keyed: Set<Seq<char>>,
    roots: Seq<Seq<char>>,
    backends: Seq<&dyn Backend>,
    repo: RepoView,
    artifacts: Map<Seq<char>, Seq<Seq<char>>>,
    d: Seq<char>,
)
    ensures
        keyed.contains(d) ==> !hit_upfront(nodes, keyed, roots, backends, repo, artifacts, d),
        !nodes.contains_key(d) ==> !hit_upfront(nodes, keyed, roots, backends, repo, artifacts, d),
        !artifacts.contains_key(digest::blake3_hex(encode_utf8(d))) ==> !hit_upfront(
            nodes,
            keyed,
            roots,
            backends,
            repo,
            artifacts,
            d,
        ),
        nodes.contains_key(d) && !keyed.contains(d) && artifacts.contains_key(
            digest::blake3_hex(encode_utf8(d)),
        ) && !roots.contains(d) ==> hit_upfront(
            nodes,
            keyed,
            roots,
            backends,
            repo,
            artifacts,
            d,
        ),
        nodes.contains_key(d) && !keyed.contains(d) && artifacts.contains_key(
            digest::blake3_hex(encode_utf8(d)),
        ) && roots.contains(d) ==> (hit_upfront(
            nodes,
            keyed,
            roots,
            backends,
            repo,
            artifacts,
            d,
        ) <==> backends[backend::owner(backends, d, nodes[d].drv, repo)].will_do(
            nodes[d].drv,
            artifacts[digest::blake3_hex(encode_utf8(d))],
        )),
{
}

/// A unit whose key is not in the cache is built; one whose key is there is skipped unless it is a
/// target and what lies there will not do for one.
pub proof fn only_lacking_targets_are_built_again<B: Backend + ?Sized>(
    r: &Run,
    x: usize,
    names: Seq<Seq<char>>,
    backend: &B,
)
    ensures
        !r.will_do(x, None, true, backend),
        !r.will_do(x, None, false, backend),
        r.will_do(x, Some(names), false, backend),
        r.will_do(x, Some(names), true, backend) <==> backend.will_do(
            strmap::listing(r.nodes())[x as int].1.drv,
            names,
        ),
{
}

/// A unit whose key takes in outputs is built from the directory of its source exactly where that is
/// watched. A unit whose key does not is built as its derivation says.
pub proof fn watched_units_are_built_from_their_source(r: &Run, x: usize)
    ensures
        !r.keyed_units().contains(r.name(x)) ==> r.override_for(x) is None,
        r.keyed_units().contains(r.name(x)) ==> r.override_for(x) is Some,
        r.keyed_units().contains(r.name(x)) && r.own_hashes().contains_key(r.name(x))
            ==> r.override_for(x)->Some_0.src_path == Some(r.own_hashes()[r.name(x)].src_dir),
        r.keyed_units().contains(r.name(x)) && !r.own_hashes().contains_key(r.name(x))
            ==> r.override_for(x)->Some_0.src_path is None,
        r.keyed_units().contains(r.name(x)) ==> executor::effective(r.name(x), r.override_for(x))
            == r.unit_key(x),
{
}

/// A unit is built below `tmp`, under the key of its derivation.
pub proof fn units_are_built_below_tmp(r: &Run, x: usize)
    requires
        r.root().len() > 0,
        r.root().last() != '/',
        !cache::drv_key(r.name(x)).contains('/'),
    ensures
        r.tmp_of(x) == r.root() + seq!['/', 't', 'm', 'p', '/'] + cache::drv_key(r.name(x)),
        r.tmp_of(x) == cache::tmp_place(r.root(), r.name(x)),
{
    reveal_strlit("tmp");
    let k = cache::drv_key(r.name(x));
    if k.len() > 0 {
        assert(k.contains(k[0]));
    }
    path::joining_goes_below(r.root(), "tmp"@);
    path::joining_goes_below(path::joined(r.root(), "tmp"@), k);
    assert(path::joined(r.root(), "tmp"@) =~= r.root() + seq!['/', 't', 'm', 'p']);
    assert(r.tmp_of(x) =~= r.root() + seq!['/', 't', 'm', 'p', '/'] + k);
}

/// Dependents of a unit that was found in the cache go by the hashes beside what was found: by that
/// of its outputs and by that of its interface. What is known of all other units stays.
pub proof fn found_hashes_are_handed_on(
    a: &Run,
    b: &Run,
    x: usize,
    key: Seq<char>,
    out_hash: Option<String>,
    early_hash: Option<String>,
    e: Seq<char>,
)
    requires
        b.was_found(a, x, key, out_hash, early_hash),
    ensures
        out_hash matches Some(h) ==> b@.propagated.contains_key(a.name(x))
            && b@.propagated[a.name(x)] == h@,
        early_hash matches Some(h) ==> b@.early.contains_key(a.name(x)) && b@.early[a.name(x)] == h@,
        out_hash is None ==> b@.propagated == a@.propagated,
        early_hash is None ==> b@.early == a@.early,
        e != a.name(x) ==> overrides::value_at(b@.propagated, e) == overrides::value_at(
            a@.propagated,
            e,
        ) && overrides::value_at(b@.early, e) == overrides::value_at(a@.early, e),
        b@.eff_key == a@.eff_key,
        b.state.late_cached == a.state.late_cached + 1,
        b.state.succeeded == a.state.succeeded,
{
}

/// Dependents of a unit that was built go by the hashes of what was built where its key takes in
/// outputs; otherwise nothing is noted. Its outputs stay where they are.
pub proof fn built_hashes_are_handed_on(
    a: &Run,
    b: &Run,
    x: usize,
    out_hash: Option<String>,
    early_hash: Option<String>,
    e: Seq<char>,
)
    requires
        b.was_built(a, x, out_hash, early_hash),
    ensures
        b@.output_map == a@.output_map,
        b@.eff_key == a@.eff_key,
        b.state.succeeded == a.state.succeeded + 1,
        b.state.late_cached == a.state.late_cached,
        !a.keyed_units().contains(a.name(x)) ==> b@.propagated == a@.propagated && b@.early
            == a@.early,
        a.keyed_units().contains(a.name(x)) ==> {
            &&& out_hash matches Some(h) ==> b@.propagated.contains_key(a.name(x))
                && b@.propagated[a.name(x)] == h@
            &&& early_hash matches Some(h) ==> b@.early.contains_key(a.name(x))
                && b@.early[a.name(x)] == h@
            &&& out_hash is None ==> b@.propagated == a@.propagated
            &&& early_hash is None ==> b@.early == a@.early
        },
        e != a.name(x) ==> overrides::value_at(b@.propagated, e) == overrides::value_at(
            a@.propagated,
            e,
        ) && overrides::value_at(b@.early, e) == overrides::value_at(a@.early, e),
{
}

/// A signal makes the hash of an interface known before the outputs are, and nothing else.
pub proof fn signals_hand_on_the_interface(
    a: &Run,
    b: &Run,
    x: usize,
    early_hash: Option<String>,
    y: int,
)
    requires
        b.has_signalled(a, x, early_hash),
        x < a.state.early_fired@.len(),
    ensures
        b@.propagated == a@.propagated,
        b@.output_map == a@.output_map,
        b@.eff_key == a@.eff_key,
        early_hash matches Some(h) ==> b@.early.contains_key(a.name(x)) && b@.early[a.name(x)] == h@,
        early_hash is None ==> b@.early == a@.early,
        b.state.early_fired@[x as int],
        0 <= y < a.state.early_fired@.len() && y != x ==> b.state.early_fired@[y]
            == a.state.early_fired@[y],
{
}

/// A unit is handed out once: it is no longer ready, and it is taken. Its key is what dependents go
/// by until a hash is known, exactly where it takes in outputs.
pub proof fn units_are_handed_out_once(a: &Run, b: &Run, x: usize, key: Seq<char>, e: Seq<char>)
    requires
        b.was_handed_out(a, x, key),
        a.state.ready@.len() > 0,
        a.state.ready@.no_duplicates(),
        a.state.ready@.last() == x,
        x < a.state.status@.len(),
    ensures
        !b.state.ready@.contains(x),
        b.state.status@[x as int] == Status::Taken,
        a.keyed_units().contains(a.name(x)) ==> b@.eff_key.contains_key(a.name(x))
            && b@.eff_key[a.name(x)] == key,
        !a.keyed_units().contains(a.name(x)) ==> b@.eff_key == a@.eff_key,
        e != a.name(x) ==> overrides::value_at(b@.eff_key, e) == overrides::value_at(a@.eff_key, e),
        b@.propagated == a@.propagated && b@.early == a@.early && b@.output_map == a@.output_map,
{
    if b.state.ready@.contains(x) {
        let i = b.state.ready@.index_of(x);
        assert(a.state.ready@[i] == a.state.ready@[a.state.ready@.len() - 1]);
    }
}

/// A run gives the key of every unit of the graph and of nothing else: the one that was settled, or
/// that of the derivation.
pub proof fn every_unit_has_its_key(r: &Run, s: SchedulerResult, d: Seq<char>)
    requires
        call_ensures(Run::result, (r,), s),
    ensures
        s.failed == r.state.failed,
        s.keys@.contains_key(d) <==> r.nodes().contains_key(d),
        r.nodes().contains_key(d) && r@.eff_key.contains_key(d) ==> s.keys@[d] == r@.eff_key[d],
        r.nodes().contains_key(d) && !r@.eff_key.contains_key(d) ==> s.keys@[d]
            == digest::blake3_hex(encode_utf8(d)),
{
    assert(s.keys@.dom().contains(d) <==> r.nodes().dom().contains(d));
}

} // verus!
