//! Where the outputs of units lie, and where builds are told that they do.
use crate::cache;
use crate::digest;
use crate::drv::{DrvView, OutputView};
use crate::executor;
use crate::graph::NodeView;
use crate::path;
use crate::run;
use crate::run::Run;
use crate::scheduler::Status;
use crate::sorting;
use crate::strmap;
use vstd::prelude::*;
use vstd::utf8::*;

verus! {

/// No output but `o` has the store path of `o`.
pub open spec fn own_path(outs: Map<Seq<char>, OutputView>, o: Seq<char>) -> bool {
    &&& outs.contains_key(o)
    &&& forall|n: Seq<char>| #[trigger]
        outs.contains_key(n) && outs[n].path == outs[o].path ==> n == o
}

proof fn others_stay(
    m: Map<Seq<char>, Seq<char>>,
    l: Seq<(Seq<char>, OutputView)>,
    base: Seq<char>,
    p: Seq<char>,
)
    requires
        forall|i: int| 0 <= i < l.len() ==> (#[trigger] l[i]).1.path != p,
    ensures
        run::with_outputs(m, l, base).contains_key(p) <==> m.contains_key(p),
        m.contains_key(p) ==> run::with_outputs(m, l, base)[p] == m[p],
    decreases l.len(),
{
    if l.len() > 0 {
        assert(l[l.len() - 1].1.path != p);
        assert forall|i: int| 0 <= i < l.drop_last().len() implies (#[trigger] l.drop_last()[i]).1.path
            != p by {
            assert(l.drop_last()[i] == l[i]);
        }
        others_stay(m, l.drop_last(), base, p);
    }
}

proof fn listed_is_placed(
    m: Map<Seq<char>, Seq<char>>,
    l: Seq<(Seq<char>, OutputView)>,
    base: Seq<char>,
    k: int,
)
    requires
        0 <= k < l.len(),
        forall|i: int| 0 <= i < l.len() && i != k ==> (#[trigger] l[i]).1.path != l[k].1.path,
    ensures
        run::with_outputs(m, l, base).contains_key(l[k].1.path),
        run::with_outputs(m, l, base)[l[k].1.path] == path::joined(base, l[k].0),
    decreases l.len(),
{
    if k < l.len() - 1 {
        let f = l.drop_last();
        assert(l[l.len() - 1].1.path != l[k].1.path);
        assert forall|i: int| 0 <= i < f.len() && i != k implies (#[trigger] f[i]).1.path
            != f[k].1.path by {
            assert(f[i] == l[i]);
        }
        listed_is_placed(m, f, base, k);
    }
}

/// Each output of a unit lies in a directory of its own below the unit's, under the name of the
/// output, which is where the build of the unit is told to put it. All else stays where it was.
pub proof fn outputs_lie_under_their_names(
    m: Map<Seq<char>, Seq<char>>,
    outs: Map<Seq<char>, OutputView>,
    base: Seq<char>,
    o: Seq<char>,
)
    requires
        outs.dom().finite(),
        own_path(outs, o),
    ensures
        run::with_outputs(m, strmap::listing(outs), base).contains_key(outs[o].path),
        run::with_outputs(m, strmap::listing(outs), base)[outs[o].path] == path::joined(base, o),
        base.len() > 0 && base.last() != '/' && o.len() > 0 && o[0] != '/' ==> run::with_outputs(
            m,
            strmap::listing(outs),
            base,
        )[outs[o].path] == base + seq!['/'] + o,
        forall|d: DrvView|
            #![trigger executor::output_places(d, base)]
            d.outputs == outs ==> executor::output_places(d, base).contains_key(o)
                && executor::output_places(d, base)[o] == run::with_outputs(
                m,
                strmap::listing(outs),
                base,
            )[outs[o].path],
{
    let l = strmap::listing(outs);
    sorting::finite_map_is_listed(outs);
    assert(strmap::has_key(l, o));
    let k = strmap::key_index(l, o);
    strmap::ascending_index(l, k);
    assert forall|i: int| 0 <= i < l.len() && i != k implies (#[trigger] l[i]).1.path
        != l[k].1.path by {
        strmap::ascending_index(l, i);
        assert(outs.contains_key(l[i].0));
    }
    listed_is_placed(m, l, base, k);
    path::joining_goes_below(base, o);
}

/// Noting the outputs of a unit moves no other path.
pub proof fn other_places_stay(
    m: Map<Seq<char>, Seq<char>>,
    outs: Map<Seq<char>, OutputView>,
    base: Seq<char>,
    p: Seq<char>,
)
    requires
        outs.dom().finite(),
        forall|n: Seq<char>| #[trigger] outs.contains_key(n) ==> outs[n].path != p,
    ensures
        run::with_outputs(m, strmap::listing(outs), base).contains_key(p) <==> m.contains_key(p),
        m.contains_key(p) ==> run::with_outputs(m, strmap::listing(outs), base)[p] == m[p],
{
    let l = strmap::listing(outs);
    sorting::finite_map_is_listed(outs);
    assert forall|i: int| 0 <= i < l.len() implies (#[trigger] l[i]).1.path != p by {
        strmap::ascending_index(l, i);
        assert(outs.contains_key(l[i].0));
    }
    others_stay(m, l, base, p);
}

/// Two outputs of one unit lie in different directories.
pub proof fn outputs_lie_apart(
    m: Map<Seq<char>, Seq<char>>,
    outs: Map<Seq<char>, OutputView>,
    base: Seq<char>,
    o: Seq<char>,
    n: Seq<char>,
)
    requires
        outs.dom().finite(),
        own_path(outs, o),
        own_path(outs, n),
        o != n,
        base.len() > 0,
        base.last() != '/',
        o.len() > 0,
        o[0] != '/',
        n.len() > 0,
        n[0] != '/',
    ensures
        run::with_outputs(m, strmap::listing(outs), base)[outs[o].path] != run::with_outputs(
            m,
            strmap::listing(outs),
            base,
        )[outs[n].path],
{
    outputs_lie_under_their_names(m, outs, base, o);
    outputs_lie_under_their_names(m, outs, base, n);
    let b = base + seq!['/'];
    if b + o == b + n {
        assert(o =~= (b + o).skip(b.len() as int));
        assert(n =~= (b + n).skip(b.len() as int));
    }
}

/// The outputs of the unit at position `x` of a run.
pub open spec fn unit_outputs(r: &Run, x: usize) -> Map<Seq<char>, OutputView> {
    strmap::listing(r.nodes())[x as int].1.drv.outputs
}

/// The outputs of a unit that is being built lie where it is built: below `tmp` and the key of its
/// derivation, each under its name.
pub proof fn running_outputs_lie_in_tmp(
    from: &Run,
    to: &Run,
    x: usize,
    deps: Map<Seq<char>, Seq<char>>,
    o: Seq<char>,
)
    requires
        to.has_begun(from, x, deps),
        unit_outputs(from, x).dom().finite(),
        own_path(unit_outputs(from, x), o),
        o.len() > 0,
        o[0] != '/',
        from.root().len() > 0,
        from.root().last() != '/',
        ({
            let k = digest::blake3_hex(encode_utf8(from.name(x)));
            k.len() > 0 && k[0] != '/' && k.last() != '/'
        }),
    ensures
        to@.output_map.contains_key(unit_outputs(from, x)[o].path),
        to@.output_map[unit_outputs(from, x)[o].path] == from.root() + "/tmp/"@
            + digest::blake3_hex(encode_utf8(from.name(x))) + seq!['/'] + o,
{
    let root = from.root();
    let k = digest::blake3_hex(encode_utf8(from.name(x)));
    place_below(root, "tmp"@, k);
    reveal_strlit("tmp");
    reveal_strlit("/tmp/");
    let base = root + "/tmp/"@ + k;
    assert(root + seq!['/'] + "tmp"@ + seq!['/'] + k =~= base);
    assert(base.last() == k.last());
    outputs_lie_under_their_names(from@.output_map, unit_outputs(from, x), base, o);
}

/// The outputs of a unit that was found in the cache lie there: below `artifacts` and the key under
/// which it was found, each under its name.
pub proof fn found_outputs_lie_in_the_cache(
    from: &Run,
    to: &Run,
    x: usize,
    key: Seq<char>,
    out_hash: Option<String>,
    early_hash: Option<String>,
    o: Seq<char>,
)
    requires
        to.was_found(from, x, key, out_hash, early_hash),
        unit_outputs(from, x).dom().finite(),
        own_path(unit_outputs(from, x), o),
        o.len() > 0,
        o[0] != '/',
        from.root().len() > 0,
        from.root().last() != '/',
        key.len() > 0,
        key[0] != '/',
        key.last() != '/',
    ensures
        to@.output_map.contains_key(unit_outputs(from, x)[o].path),
        to@.output_map[unit_outputs(from, x)[o].path] == from.root() + "/artifacts/"@ + key
            + seq!['/'] + o,
{
    let root = from.root();
    place_below(root, "artifacts"@, key);
    reveal_strlit("artifacts");
    reveal_strlit("/artifacts/");
    let base = root + "/artifacts/"@ + key;
    assert(root + seq!['/'] + "artifacts"@ + seq!['/'] + key =~= base);
    assert(base.last() == key.last());
    outputs_lie_under_their_names(from@.output_map, unit_outputs(from, x), base, o);
}

proof fn place_below(root: Seq<char>, kind: Seq<char>, k: Seq<char>)
    requires
        root.len() > 0,
        root.last() != '/',
        kind == "tmp"@ || kind == "artifacts"@,
        k.len() > 0,
        k[0] != '/',
    ensures
        path::joined(path::joined(root, kind), k) == root + seq!['/'] + kind + seq!['/'] + k,
{
    reveal_strlit("tmp");
    reveal_strlit("artifacts");
    path::joining_goes_below(root, kind);
    path::joining_goes_below(root + seq!['/'] + kind, k);
}

proof fn placed_from_list(
    m: Map<Seq<char>, Seq<char>>,
    l: Seq<(Seq<char>, OutputView)>,
    known: Map<Seq<char>, Seq<char>>,
    p: Seq<char>,
)
    ensures
        run::places_of(m, l, known).contains_key(p) <==> m.contains_key(p) || (known.contains_key(p)
            && exists|i: int| 0 <= i < l.len() && (#[trigger] l[i]).1.path == p),
        known.contains_key(p) && (m.contains_key(p) ==> m[p] == known[p]) && run::places_of(
            m,
            l,
            known,
        ).contains_key(p) ==> run::places_of(m, l, known)[p] == known[p],
    decreases l.len(),
{
    if l.len() > 0 {
        let f = l.drop_last();
        placed_from_list(m, f, known, p);
        if exists|i: int| 0 <= i < f.len() && (#[trigger] f[i]).1.path == p {
            let i = choose|i: int| 0 <= i < f.len() && (#[trigger] f[i]).1.path == p;
            assert(l[i].1.path == p);
        }
        assert(l[l.len() - 1] == l.last());
        if exists|i: int| 0 <= i < l.len() && (#[trigger] l[i]).1.path == p {
            let i = choose|i: int| 0 <= i < l.len() && (#[trigger] l[i]).1.path == p;
            if i < f.len() {
                assert(f[i].1.path == p);
            }
        }
    }
}

/// `p` is the store path of an output of one of some units.
pub open spec fn output_of_some(
    deps: Seq<Seq<char>>,
    nodes: Map<Seq<char>, NodeView>,
    p: Seq<char>,
) -> bool {
    exists|k: int, o: Seq<char>|
        #![trigger deps[k], nodes[deps[k]].drv.outputs.contains_key(o)]
        0 <= k < deps.len() && nodes.contains_key(deps[k])
            && nodes[deps[k]].drv.outputs.contains_key(o) && nodes[deps[k]].drv.outputs[o].path == p
}

/// A build is told the places of exactly the outputs of its dependencies, all of them as far as they
/// are known, and the place that is known.
pub proof fn builds_know_their_dependencies(
    deps: Seq<Seq<char>>,
    nodes: Map<Seq<char>, NodeView>,
    known: Map<Seq<char>, Seq<char>>,
    p: Seq<char>,
)
    requires
        forall|d: Seq<char>| #[trigger]
            nodes.contains_key(d) ==> nodes[d].drv.outputs.dom().finite(),
    ensures
        run::dep_places(deps, nodes, known).contains_key(p) <==> known.contains_key(p)
            && output_of_some(deps, nodes, p),
        run::dep_places(deps, nodes, known).contains_key(p) ==> run::dep_places(
            deps,
            nodes,
            known,
        )[p] == known[p],
    decreases deps.len(),
{
    if deps.len() > 0 {
        let f = deps.drop_last();
        let d = deps.last();
        assert(deps[deps.len() - 1] == d);
        builds_know_their_dependencies(f, nodes, known, p);
        let rest = run::dep_places(f, nodes, known);
        if output_of_some(f, nodes, p) {
            let (k, o) = choose|k: int, o: Seq<char>|
                #![trigger f[k], nodes[f[k]].drv.outputs.contains_key(o)]
                0 <= k < f.len() && nodes.contains_key(f[k])
                    && nodes[f[k]].drv.outputs.contains_key(o)
                    && nodes[f[k]].drv.outputs[o].path == p;
            assert(deps[k] == f[k]);
            assert(nodes[deps[k]].drv.outputs.contains_key(o));
        }
        if nodes.contains_key(d) {
            let outs = nodes[d].drv.outputs;
            let l = strmap::listing(outs);
            sorting::finite_map_is_listed(outs);
            placed_from_list(rest, l, known, p);
            if exists|i: int| 0 <= i < l.len() && (#[trigger] l[i]).1.path == p {
                let i = choose|i: int| 0 <= i < l.len() && (#[trigger] l[i]).1.path == p;
                strmap::ascending_index(l, i);
                assert(nodes[deps[deps.len() - 1]].drv.outputs.contains_key(l[i].0));
            }
        }
        if output_of_some(deps, nodes, p) {
            let (k, o) = choose|k: int, o: Seq<char>|
                #![trigger deps[k], nodes[deps[k]].drv.outputs.contains_key(o)]
                0 <= k < deps.len() && nodes.contains_key(deps[k])
                    && nodes[deps[k]].drv.outputs.contains_key(o)
                    && nodes[deps[k]].drv.outputs[o].path == p;
            if k < f.len() {
                assert(f[k] == deps[k]);
                assert(nodes[f[k]].drv.outputs.contains_key(o));
            } else {
                let outs = nodes[d].drv.outputs;
                let l = strmap::listing(outs);
                assert(strmap::has_key(l, o));
                let i = strmap::key_index(l, o);
                strmap::ascending_index(l, i);
                assert(l[i].1.path == p);
            }
        }
    }
}

/// The outputs of a unit that is in the cache from the start lie there, below `artifacts` and the
/// key of its derivation, as long as no later unit has the same store path.
pub proof fn cached_units_lie_in_the_cache(
    root: Seq<char>,
    l: Seq<(Seq<char>, NodeView)>,
    status: Seq<Status>,
    x: int,
    o: Seq<char>,
)
    requires
        0 <= x < l.len(),
        status.len() >= l.len(),
        status[x] == Status::Idle,
        l[x].1.drv.outputs.dom().finite(),
        own_path(l[x].1.drv.outputs, o),
        forall|y: int, n: Seq<char>|
            #![trigger l[y].1.drv.outputs.contains_key(n)]
            x < y < l.len() && l[y].1.drv.outputs.contains_key(n) ==> l[y].1.drv.outputs[n].path
                != l[x].1.drv.outputs[o].path,
        forall|y: int| x < y < l.len() ==> (#[trigger] l[y]).1.drv.outputs.dom().finite(),
        o.len() > 0,
        o[0] != '/',
        root.len() > 0,
        root.last() != '/',
        ({
            let k = digest::blake3_hex(encode_utf8(l[x].0));
            k.len() > 0 && k[0] != '/' && k.last() != '/'
        }),
    ensures
        run::cached_outputs(root, l, status).contains_key(l[x].1.drv.outputs[o].path),
        run::cached_outputs(root, l, status)[l[x].1.drv.outputs[o].path] == root + "/artifacts/"@
            + digest::blake3_hex(encode_utf8(l[x].0)) + seq!['/'] + o,
    decreases l.len(),
{
    let f = l.drop_last();
    let rest = run::cached_outputs(root, f, status);
    let p = l[x].1.drv.outputs[o].path;
    let n = l.len() - 1;
    if x == n {
        let k = digest::blake3_hex(encode_utf8(l[x].0));
        place_below(root, "artifacts"@, k);
        reveal_strlit("artifacts");
        reveal_strlit("/artifacts/");
        let base = root + "/artifacts/"@ + k;
        assert(root + seq!['/'] + "artifacts"@ + seq!['/'] + k =~= base);
        assert(base.last() == k.last());
        outputs_lie_under_their_names(rest, l[x].1.drv.outputs, base, o);
    } else {
        assert(f[x] == l[x]);
        assert forall|y: int, m: Seq<char>|
            #![trigger f[y].1.drv.outputs.contains_key(m)]
            x < y < f.len() && f[y].1.drv.outputs.contains_key(m) implies f[y].1.drv.outputs[m].path
            != p by {
            assert(f[y] == l[y]);
            assert(l[y].1.drv.outputs.contains_key(m));
        }
        cached_units_lie_in_the_cache(root, f, status, x, o);
        let outs = l[n].1.drv.outputs;
        assert forall|m: Seq<char>| #[trigger] outs.contains_key(m) implies outs[m].path != p by {
            assert(l[n].1.drv.outputs.contains_key(m));
        }
        other_places_stay(rest, outs, cache::artifact_path(root, cache::drv_key(l[n].0)), p);
    }
}

} // verus!
