//! The members of a Cargo workspace, and the derivations that build them.
use crate::digest;
use crate::drv::DrvView;
use crate::graph::{BuildGraph, NodeView};
use crate::overrides;
use crate::resolve;
use crate::resolve::{EvalFile, EvalView};
use crate::strmap;
use crate::strmap::StrMap;
use crate::text;
use vstd::prelude::*;

verus! {

/// A directory that may be a member: its path below the repository, and the name of its package
/// where it has a manifest that names one.
pub struct FoundMember {
    pub rel: String,
    pub package: Option<String>,
}

impl DeepView for FoundMember {
    type V = (Seq<char>, Option<Seq<char>>);

    open spec fn deep_view(&self) -> (Seq<char>, Option<Seq<char>>) {
        (
            self.rel@,
            match self.package {
                Some(p) => Some(p@),
                None => None,
            },
        )
    }
}

/// The members among found directories, by the names of their packages. Of two with the same name
/// the later one counts.
pub open spec fn members_of(found: Seq<(Seq<char>, Option<Seq<char>>)>) -> Map<
    Seq<char>,
    Seq<char>,
>
    decreases found.len(),
{
    if found.len() == 0 {
        Map::empty()
    } else {
        match found.last().1 {
            Some(n) => members_of(found.drop_last()).insert(n, found.last().0),
            None => members_of(found.drop_last()),
        }
    }
}

/// Gives the members of a workspace, by the names of their packages, from the directories that its
/// entries stand for, in order.
pub fn compute_workspace_members(found: &Vec<FoundMember>) -> (r: StrMap<String>)
    ensures
        r@ == members_of(found.deep_view()),
{
    let ghost fs = found.deep_view();
    let mut m: StrMap<String> = StrMap::new();
    assert(fs.take(0) =~= Seq::empty());
    for i in 0..found.len()
        invariant
            fs == found.deep_view(),
            m@ == members_of(fs.take(i as int)),
    {
        proof {
            assert(fs.take(i + 1).drop_last() =~= fs.take(i as int));
            assert(fs[i as int] == found@[i as int].deep_view());
        }
        match &found[i].package {
            Some(n) => {
                m.insert(n.clone(), found[i].rel.clone());
            },
            None => {},
        }
    }
    assert(fs.take(fs.len() as int) =~= fs);
    m
}

/// Whether an entry of a workspace's members has to be matched against the directories there are.
/// Any other entry is a directory itself.
pub fn is_pattern(entry: &str) -> (r: bool)
    ensures
        r == (entry@.contains('*') || entry@.contains('?') || entry@.contains('[')),
{
    let cs = text::chars_of(entry);
    for i in 0..cs.len()
        invariant
            cs@ == entry@,
            forall|k: int|
                0 <= k < i ==> (#[trigger] cs@[k]) != '*' && cs@[k] != '?' && cs@[k] != '[',
    {
        if cs[i] == '*' || cs[i] == '?' || cs[i] == '[' {
            assert(entry@[i as int] == cs@[i as int]);
            return true;
        }
    }
    false
}

/// The bytes that tell whether the dependencies of a workspace have changed: its `Cargo.lock`, and
/// what its manifest declares beside.
pub open spec fn lock_bytes(lock: Seq<u8>, globs: Seq<Seq<char>>, files: Seq<EvalView>) -> Seq<u8> {
    lock + resolve::input_bytes(globs, files)
}

/// Gives the lock hash of a workspace: 16 digits.
pub fn lock_hash(lock: &[u8], globs: &Vec<String>, files: Vec<EvalFile>) -> (r: String)
    ensures
        r@ == digest::short_hex(lock_bytes(lock@, globs.deep_view(), files.deep_view()), 16),
        r@.len() == 16,
        digest::hex_text(r@),
{
    let mut h = digest::new_hasher();
    digest::update(&mut h, lock);
    let ghost want = lock_bytes(lock@, globs.deep_view(), files.deep_view());
    resolve::hash_eval_inputs(&mut h, globs, files);
    assert(digest::hasher_input(h)->Some_0 =~= want);
    digest::cut(digest::finish(&h).as_str(), 16)
}

/// Whether a directory is skipped where a source is hashed: cargo builds into it.
pub fn skip_dir(name: &str) -> (r: bool)
    ensures
        r == (name@ == "target"@),
{
    text::str_eq(name, "target")
}

/// The name of the crate that a derivation builds.
pub open spec fn crate_name(d: DrvView) -> Option<Seq<char>> {
    overrides::value_at(d.env, "crateName"@)
}

/// Whether a derivation builds a crate of the workspace: those have this version.
pub open spec fn is_local(d: DrvView) -> bool {
    overrides::value_at(d.env, "version"@) == Some("0.0.0"@)
}

/// The derivation that is taken for each crate name. A crate of the workspace goes before any
/// other of its name.
pub open spec fn picks(l: Seq<(Seq<char>, NodeView)>) -> Map<Seq<char>, Seq<char>>
    decreases l.len(),
{
    if l.len() == 0 {
        Map::empty()
    } else {
        let before = picks(l.drop_last());
        match crate_name(l.last().1.drv) {
            None => before,
            Some(n) => if before.contains_key(n) && !is_local(l.last().1.drv) {
                before
            } else {
                before.insert(n, l.last().0)
            },
        }
    }
}

/// The warning about a crate of the workspace with two derivations.
pub open spec fn two_drvs(name: Seq<char>, prev: Seq<char>, drv: Seq<char>) -> Seq<char> {
    "  warn: workspace crate '"@ + name + "' has multiple drvs ("@ + prev + " and "@ + drv
        + "); source-change tracking will only cover one"@
}

/// The warnings about crates of the workspace with more than one derivation.
pub open spec fn pick_warnings(
    nodes: Map<Seq<char>, NodeView>,
    l: Seq<(Seq<char>, NodeView)>,
) -> Seq<Seq<char>>
    decreases l.len(),
{
    if l.len() == 0 {
        Seq::empty()
    } else {
        let before = picks(l.drop_last());
        let rest = pick_warnings(nodes, l.drop_last());
        match crate_name(l.last().1.drv) {
            None => rest,
            Some(n) => if before.contains_key(n) && is_local(l.last().1.drv) && is_local(
                nodes[before[n]].drv,
            ) {
                rest.push(two_drvs(n, before[n], l.last().0))
            } else {
                rest
            },
        }
    }
}

proof fn pick_is_node(l: Seq<(Seq<char>, NodeView)>, n: Seq<char>)
    requires
        picks(l).contains_key(n),
    ensures
        exists|j: int|
            0 <= j < l.len() && (#[trigger] l[j]).0 == picks(l)[n] && crate_name(l[j].1.drv) == Some(
                n,
            ),
    decreases l.len(),
{
    if l.len() > 0 {
        let d = l.drop_last();
        if picks(d).contains_key(n) {
            pick_is_node(d, n);
            let j = choose|j: int|
                0 <= j < d.len() && (#[trigger] d[j]).0 == picks(d)[n] && crate_name(d[j].1.drv)
                    == Some(n);
            assert(l[j] == d[j]);
        }
        assert(l[l.len() - 1] == l.last());
    }
}

/// Where a crate name has a derivation of the workspace, such a one is taken for it.
pub proof fn local_crates_win(l: Seq<(Seq<char>, NodeView)>, i: int)
    requires
        0 <= i < l.len(),
        crate_name(l[i].1.drv) is Some,
        is_local(l[i].1.drv),
    ensures
        ({
            let n = crate_name(l[i].1.drv)->Some_0;
            &&& picks(l).contains_key(n)
            &&& exists|j: int|
                0 <= j < l.len() && (#[trigger] l[j]).0 == picks(l)[n] && crate_name(l[j].1.drv)
                    == Some(n) && is_local(l[j].1.drv)
        }),
    decreases l.len(),
{
    let n = crate_name(l[i].1.drv)->Some_0;
    let d = l.drop_last();
    assert(l[l.len() - 1] == l.last());
    if i < d.len() {
        assert(d[i] == l[i]);
        local_crates_win(d, i);
        let j = choose|j: int|
            0 <= j < d.len() && (#[trigger] d[j]).0 == picks(d)[n] && crate_name(d[j].1.drv)
                == Some(n) && is_local(d[j].1.drv);
        assert(l[j] == d[j]);
    }
}

fn is_local_drv(drv: &crate::drv::Derivation) -> (r: bool)
    ensures
        r == is_local(drv.deep_view()),
{
    match drv.env.get("version") {
        Some(v) => text::str_eq(v.as_str(), "0.0.0"),
        None => false,
    }
}

/// Gives the derivation that is taken for each crate name, and what there is to warn about.
pub fn pick_drvs(g: &BuildGraph) -> (r: (StrMap<String>, Vec<String>))
    ensures
        r.0@ == picks(strmap::listing(g.nodes@)),
        r.1.deep_view() == pick_warnings(g.nodes@, strmap::listing(g.nodes@)),
{
    let ghost nodes = g.nodes@;
    let ghost l = strmap::listing(nodes);
    let n: usize = g.nodes.len();
    let mut m: StrMap<String> = StrMap::new();
    let mut warnings: Vec<String> = Vec::new();
    assert(l.take(0) =~= Seq::empty());
    assert(warnings.deep_view() =~= Seq::<Seq<char>>::empty());
    for i in 0..n
        invariant
            nodes == g.nodes@,
            l == strmap::listing(nodes),
            n == l.len(),
            strmap::as_map(l) == nodes,
            m@ == picks(l.take(i as int)),
            warnings.deep_view() == pick_warnings(nodes, l.take(i as int)),
    {
        let ghost t = l.take(i as int);
        assert(l.take(i + 1).drop_last() =~= t);
        let path = g.nodes.key(i);
        let node = g.nodes.value(i);
        match node.drv.env.get("crateName") {
            None => {},
            Some(name) => {
                let local = is_local_drv(&node.drv);
                match m.get(name.as_str()) {
                    None => {
                        m.insert(name.clone(), path.clone());
                    },
                    Some(prev) => {
                        if local {
                            let prev = prev.clone();
                            proof {
                                pick_is_node(t, name@);
                                let j = choose|j: int|
                                    0 <= j < t.len() && (#[trigger] t[j]).0 == picks(t)[name@]
                                        && crate_name(t[j].1.drv) == Some(name@);
                                assert(l[j].0 == prev@);
                                assert(strmap::has_key(l, prev@));
                                assert(nodes.contains_key(prev@));
                            }
                            let prev_local = match g.nodes.get(prev.as_str()) {
                                Some(p) => is_local_drv(&p.drv),
                                None => false,
                            };
                            if prev_local {
                                let mut w = "  warn: workspace crate '".to_owned();
                                w.append(name.as_str());
                                w.append("' has multiple drvs (");
                                w.append(prev.as_str());
                                w.append(" and ");
                                w.append(path.as_str());
                                w.append("); source-change tracking will only cover one");
                                let ghost before = warnings.deep_view();
                                warnings.push(w);
                                assert(warnings.deep_view() =~= before.push(w@));
                            }
                            m.insert(name.clone(), path.clone());
                        }
                    },
                }
            },
        }
    }
    assert(l.take(l.len() as int) =~= l);
    (m, warnings)
}

/// The directories of the members that have a derivation in the graph, by that derivation.
pub open spec fn member_dirs(
    nodes: Map<Seq<char>, NodeView>,
    members: Map<Seq<char>, Seq<char>>,
) -> Map<Seq<char>, Seq<char>> {
    let picked = picks(strmap::listing(nodes));
    Map::new(
        |d: Seq<char>|
            {
                &&& nodes.contains_key(d)
                &&& crate_name(nodes[d].drv) matches Some(n)
                &&& picked.contains_key(n)
                &&& picked[n] == d
                &&& members.contains_key(n)
            },
        |d: Seq<char>| members[crate_name(nodes[d].drv)->Some_0],
    )
}

/// Gives the directories of the members that have a derivation in the graph.
pub fn unit_dirs(g: &BuildGraph, members: &StrMap<String>) -> (r: StrMap<String>)
    ensures
        r@ == member_dirs(g.nodes@, members@),
{
    let picked = pick_drvs(g).0;
    let ghost nodes = g.nodes@;
    let ghost l = strmap::listing(nodes);
    let ghost want = member_dirs(nodes, members@);
    let n: usize = g.nodes.len();
    let mut m: StrMap<String> = StrMap::new();
    for i in 0..n
        invariant
            nodes == g.nodes@,
            l == strmap::listing(nodes),
            n == l.len(),
            strmap::as_map(l) == nodes,
            strmap::ascending(l),
            picked@ == picks(l),
            want == member_dirs(nodes, members@),
            forall|d: Seq<char>| #[trigger]
                m@.contains_key(d) <==> strmap::has_key(l.take(i as int), d) && want.contains_key(
                    d,
                ),
            forall|d: Seq<char>| #[trigger] m@.contains_key(d) ==> m@[d] == want[d],
    {
        let path = g.nodes.key(i);
        let node = g.nodes.value(i);
        let ghost before = m@;
        proof {
            strmap::ascending_index(l, i as int);
            assert(nodes[path@] == node.deep_view());
        }
        match node.drv.env.get("crateName") {
            None => {},
            Some(name) => match picked.get(name.as_str()) {
                None => {},
                Some(d) => {
                    if text::str_eq(d.as_str(), path.as_str()) {
                        match members.get(name.as_str()) {
                            None => {},
                            Some(rel) => {
                                assert(want.contains_key(path@));
                                m.insert(path.clone(), rel.clone());
                            },
                        }
                    }
                },
            },
        }
        proof {
            assert forall|d: Seq<char>| #[trigger] m@.contains_key(d) <==> strmap::has_key(
                l.take(i + 1),
                d,
            ) && want.contains_key(d) by {
                strmap::one_more_key(l, i as int, d);
                assert(before.contains_key(d) <==> strmap::has_key(l.take(i as int), d)
                    && want.contains_key(d));
            }
        }
    }
    proof {
        assert(l.take(n as int) =~= l);
        assert forall|d: Seq<char>| m@.contains_key(d) <==> want.contains_key(d) by {
            assert(nodes.contains_key(d) <==> strmap::has_key(l, d));
        }
        assert(m@ =~= want);
    }
    m
}

/// A directory with a package is the member of that name unless a later one has the same name, and
/// nothing else is a member.
pub proof fn the_last_package_counts(
    found: Seq<(Seq<char>, Option<Seq<char>>)>,
    i: int,
    n: Seq<char>,
)
    ensures
        members_of(found).contains_key(n) <==> exists|k: int|
            0 <= k < found.len() && (#[trigger] found[k]).1 == Some(n),
        0 <= i < found.len() && found[i].1 == Some(n) && (forall|k: int|
            i < k < found.len() ==> (#[trigger] found[k]).1 != Some(n)) ==> members_of(found)[n]
            == found[i].0,
    decreases found.len(),
{
    if found.len() > 0 {
        let f = found.drop_last();
        let z = found.len() - 1;
        the_last_package_counts(f, i, n);
        assert(found[z] == found.last());
        if exists|k: int| 0 <= k < f.len() && (#[trigger] f[k]).1 == Some(n) {
            let k = choose|k: int| 0 <= k < f.len() && (#[trigger] f[k]).1 == Some(n);
            assert(found[k] == f[k]);
        }
        if exists|k: int| 0 <= k < found.len() && (#[trigger] found[k]).1 == Some(n) {
            let k = choose|k: int| 0 <= k < found.len() && (#[trigger] found[k]).1 == Some(n);
            if k < f.len() {
                assert(f[k] == found[k]);
            }
        }
        if 0 <= i < f.len() && found[i].1 == Some(n) && (forall|k: int|
            i < k < found.len() ==> (#[trigger] found[k]).1 != Some(n)) {
            assert(f[i] == found[i]);
            assert(found[z].1 != Some(n));
            assert forall|k: int| i < k < f.len() implies (#[trigger] f[k]).1 != Some(n) by {
                assert(f[k] == found[k]);
            }
        }
    }
}

/// A unit is local exactly if its version is `0.0.0`, and the derivation with a crate name is taken
/// for that name: the last local one, or the first of all where none is local.
pub proof fn picks_prefer_the_workspace(l: Seq<(Seq<char>, NodeView)>, i: int, n: Seq<char>)
    requires
        0 <= i < l.len(),
        l[i].1.drv.env.contains_key("crateName"@),
        l[i].1.drv.env["crateName"@] == n,
    ensures
        picks(l).contains_key(n),
        (l[i].1.drv.env.contains_key("version"@) && l[i].1.drv.env["version"@] == "0.0.0"@) && (
        forall|k: int|
            i < k < l.len() && crate_name((#[trigger] l[k]).1.drv) == Some(n) ==> !is_local(
                l[k].1.drv,
            )) ==> picks(l)[n] == l[i].0,
        (forall|k: int|
            0 <= k < l.len() && crate_name((#[trigger] l[k]).1.drv) == Some(n) ==> !is_local(
                l[k].1.drv,
            )) && (forall|k: int|
            0 <= k < i ==> crate_name((#[trigger] l[k]).1.drv) != Some(n)) ==> picks(l)[n]
            == l[i].0,
    decreases l.len(),
{
    let f = l.drop_last();
    let z = l.len() - 1;
    assert(l[z] == l.last());
    if i < z {
        assert(f[i] == l[i]);
        picks_prefer_the_workspace(f, i, n);
        assert forall|k: int|
            i < k < f.len() && crate_name((#[trigger] f[k]).1.drv) == Some(n) && (forall|k: int|
                i < k < l.len() && crate_name((#[trigger] l[k]).1.drv) == Some(n) ==> !is_local(
                    l[k].1.drv,
                )) implies !is_local(f[k].1.drv) by {
            assert(f[k] == l[k]);
        }
        assert forall|k: int|
            0 <= k < f.len() && crate_name((#[trigger] f[k]).1.drv) == Some(n) && (forall|k: int|
                0 <= k < l.len() && crate_name((#[trigger] l[k]).1.drv) == Some(n) ==> !is_local(
                    l[k].1.drv,
                )) implies !is_local(f[k].1.drv) by {
            assert(f[k] == l[k]);
        }
        assert forall|k: int| 0 <= k < i implies crate_name((#[trigger] f[k]).1.drv)
            == crate_name(l[k].1.drv) by {
            assert(f[k] == l[k]);
        }
    } else if picks(f).contains_key(n) && (forall|k: int|
        0 <= k < i ==> crate_name((#[trigger] l[k]).1.drv) != Some(n)) {
        pick_is_node(f, n);
        let j = choose|j: int|
            0 <= j < f.len() && (#[trigger] f[j]).0 == picks(f)[n] && crate_name(f[j].1.drv)
                == Some(n);
        assert(l[j] == f[j]);
    }
}

/// A workspace member is watched in its own directory and through one derivation at most: the one
/// that is taken for its name.
pub proof fn members_are_watched_once(
    nodes: Map<Seq<char>, NodeView>,
    members: Map<Seq<char>, Seq<char>>,
    a: Seq<char>,
    b: Seq<char>,
)
    requires
        member_dirs(nodes, members).contains_key(a),
    ensures
        nodes.contains_key(a),
        nodes[a].drv.env.contains_key("crateName"@),
        members.contains_key(nodes[a].drv.env["crateName"@]),
        member_dirs(nodes, members)[a] == members[nodes[a].drv.env["crateName"@]],
        picks(strmap::listing(nodes))[nodes[a].drv.env["crateName"@]] == a,
        member_dirs(nodes, members).contains_key(b) && nodes[b].drv.env["crateName"@]
            == nodes[a].drv.env["crateName"@] ==> a == b,
{
}

/// Whatever derivation is taken for the name of a member is watched.
pub proof fn picked_members_are_watched(
    nodes: Map<Seq<char>, NodeView>,
    members: Map<Seq<char>, Seq<char>>,
    n: Seq<char>,
)
    requires
        nodes.dom().finite(),
        members.contains_key(n),
        picks(strmap::listing(nodes)).contains_key(n),
    ensures
        member_dirs(nodes, members).contains_key(picks(strmap::listing(nodes))[n]),
        member_dirs(nodes, members)[picks(strmap::listing(nodes))[n]] == members[n],
{
    let l = strmap::listing(nodes);
    crate::sorting::finite_map_is_listed(nodes);
    pick_is_node(l, n);
    let j = choose|j: int|
        0 <= j < l.len() && (#[trigger] l[j]).0 == picks(l)[n] && crate_name(l[j].1.drv) == Some(n);
    strmap::ascending_index(l, j);
}

/// A warning comes exactly where a crate of the workspace has a derivation and the one that is picked
/// for its name so far is of the workspace too. It names the crate and both.
pub proof fn second_derivations_are_warned_of(
    nodes: Map<Seq<char>, NodeView>,
    l: Seq<(Seq<char>, NodeView)>,
    d: Seq<char>,
    n: NodeView,
)
    ensures
        ({
            let before = pick_warnings(nodes, l);
            let after = pick_warnings(nodes, l.push((d, n)));
            let name = n.drv.env["crateName"@];
            let known = picks(l);
            if n.drv.env.contains_key("crateName"@) && known.contains_key(name) && is_local(n.drv)
                && is_local(nodes[known[name]].drv) {
                &&& after.len() == before.len() + 1
                &&& after.drop_last() == before
                &&& text::occurs(after.last(), seq!['\''] + name + seq!['\''])
                &&& text::occurs(after.last(), seq!['('] + known[name] + " and "@ + d + seq![')'])
            } else {
                after == before
            }
        }),
        pick_warnings(nodes, Seq::empty()).len() == 0,
{
    let p = l.push((d, n));
    assert(p.drop_last() =~= l);
    let name = n.drv.env["crateName"@];
    let known = picks(l);
    if n.drv.env.contains_key("crateName"@) && known.contains_key(name) && is_local(n.drv)
        && is_local(nodes[known[name]].drv) {
        let w = two_drvs(name, known[name], d);
        assert(pick_warnings(nodes, p) =~= pick_warnings(nodes, l).push(w));
        assert(pick_warnings(nodes, p).drop_last() =~= pick_warnings(nodes, l));
        reveal_strlit("  warn: workspace crate '");
        reveal_strlit("' has multiple drvs (");
        reveal_strlit("); source-change tracking will only cover one");
        let a = "  warn: workspace crate '"@;
        let b = "' has multiple drvs ("@;
        let x = seq!['\''] + name + seq!['\''];
        let i: int = a.len() - 1;
        assert(w.subrange(i, i + x.len()) =~= x);
        assert(text::has_at(w, i, x));
        let y = seq!['('] + known[name] + " and "@ + d + seq![')'];
        let j = a.len() + name.len() + b.len() - 1;
        assert(w.subrange(j, j + y.len()) =~= y);
        assert(text::has_at(w, j, y));
    }
}

/// An entry that holds a character of patterns is one, and no other is.
pub proof fn patterns_are_told_by_their_characters(entry: &str, r: bool, i: int)
    requires
        call_ensures(is_pattern, (entry,), r),
    ensures
        0 <= i < entry@.len() && (entry@[i] == '*' || entry@[i] == '?' || entry@[i] == '[') ==> r,
        r ==> exists|j: int|
            0 <= j < entry@.len() && (#[trigger] entry@[j] == '*' || entry@[j] == '?' || entry@[j]
                == '['),
{
}

} // verus!
