//! The graph of units: which derivations are replayed, and what each of them waits for.
use crate::drv;
use crate::drv::{Derivation, DrvView};
use crate::sorting;
use crate::strmap;
use crate::strmap::{StrMap, StrSet};
use crate::text;
use crate::topo;
use vstd::prelude::*;

verus! {

/// A node of the build graph.
#[derive(Debug)]
pub struct CrateNode {
    pub drv_path: String,
    pub drv: Derivation,
    /// The derivations that this one directly depends on and that are nodes themselves.
    pub crate_deps: Vec<String>,
}

/// What a [`CrateNode`] holds.
#[verifier::ext_equal]
pub struct NodeView {
    pub drv_path: Seq<char>,
    pub drv: DrvView,
    pub crate_deps: Seq<Seq<char>>,
}

impl DeepView for CrateNode {
    type V = NodeView;

    open spec fn deep_view(&self) -> NodeView {
        NodeView {
            drv_path: self.drv_path@,
            drv: self.drv.deep_view(),
            crate_deps: self.crate_deps.deep_view(),
        }
    }
}

/// Node `x` depends on node `d`.
pub open spec fn needs(nodes: Map<Seq<char>, NodeView>, x: Seq<char>, d: Seq<char>) -> bool {
    &&& nodes.contains_key(x)
    &&& nodes.contains_key(d)
    &&& nodes[x].crate_deps.contains(d)
}

/// Every dependency of a node is a node.
pub open spec fn deps_closed(nodes: Map<Seq<char>, NodeView>) -> bool {
    forall|x: Seq<char>, d: Seq<char>|
        nodes.contains_key(x) && #[trigger] nodes[x].crate_deps.contains(d) ==> nodes.contains_key(d)
}

/// Nodes, none twice, each behind all it depends on.
pub open spec fn in_order(nodes: Map<Seq<char>, NodeView>, o: Seq<Seq<char>>) -> bool {
    &&& o.no_duplicates()
    &&& forall|k: int| 0 <= k < o.len() ==> nodes.contains_key(#[trigger] o[k])
    &&& forall|k: int, d: Seq<char>|
        0 <= k < o.len() && #[trigger] needs(nodes, o[k], d) ==> o.take(k).contains(d)
}

/// Every node that is left out waits for another that is left out.
pub open spec fn stuck(nodes: Map<Seq<char>, NodeView>, o: Seq<Seq<char>>) -> bool {
    forall|x: Seq<char>|
        nodes.contains_key(x) && !(#[trigger] o.contains(x)) ==> exists|d: Seq<char>| #[trigger]
            needs(nodes, x, d) && !o.contains(d)
}

/// A round of nodes, each of which depends on the next.
pub open spec fn is_round(nodes: Map<Seq<char>, NodeView>, c: Seq<Seq<char>>) -> bool {
    &&& c.len() > 0
    &&& forall|i: int| 0 <= i < c.len() - 1 ==> #[trigger] needs(nodes, c[i], c[i + 1])
    &&& needs(nodes, c.last(), c[0])
}

/// The graph has a cycle.
pub open spec fn cyclic(nodes: Map<Seq<char>, NodeView>) -> bool {
    exists|c: Seq<Seq<char>>| is_round(nodes, c)
}

/// The message for a graph with a cycle, of which `k` of `n` nodes could be sorted.
pub open spec fn cycle_text(k: nat, n: nat) -> Seq<char> {
    "cycle detected: sorted "@ + text::decimal(k) + " of "@ + text::decimal(n) + " nodes"@
}

proof fn orders_agree(
    nodes: Map<Seq<char>, NodeView>,
    a: Seq<Seq<char>>,
    b: Seq<Seq<char>>,
    k: int,
)
    requires
        in_order(nodes, a),
        stuck(nodes, b),
        0 <= k <= a.len(),
    ensures
        forall|i: int| 0 <= i < k ==> b.contains(#[trigger] a[i]),
    decreases k,
{
    if k > 0 {
        orders_agree(nodes, a, b, k - 1);
        let x = a[k - 1];
        if !b.contains(x) {
            let d = choose|d: Seq<char>| #[trigger] needs(nodes, x, d) && !b.contains(d);
            let t = a.take(k - 1);
            assert(t.contains(d));
            let i = choose|i: int| 0 <= i < t.len() && t[i] == d;
            assert(a[i] == d);
        }
    }
}

/// How many nodes can be sorted does not depend on the order in which they are taken up: two
/// orders that cannot go on hold the same nodes.
pub proof fn order_is_determined(
    nodes: Map<Seq<char>, NodeView>,
    a: Seq<Seq<char>>,
    b: Seq<Seq<char>>,
)
    requires
        in_order(nodes, a),
        stuck(nodes, a),
        in_order(nodes, b),
        stuck(nodes, b),
    ensures
        a.to_set() == b.to_set(),
        a.len() == b.len(),
{
    orders_agree(nodes, a, b, a.len() as int);
    orders_agree(nodes, b, a, b.len() as int);
    assert(a.to_set() =~= b.to_set());
    a.unique_seq_to_set();
    b.unique_seq_to_set();
}

/// The numbered graph `g` has the dependencies of the listed nodes.
pub open spec fn numbered(l: Seq<(Seq<char>, NodeView)>, g: Seq<Seq<usize>>) -> bool {
    &&& g.len() == l.len()
    &&& topo::closed_graph(g)
    &&& forall|x: usize, d: usize|
        x < l.len() && d < l.len() ==> (#[trigger] topo::depends(g, x, d)
            <==> l[x as int].1.crate_deps.contains(l[d as int].0))
}

/// The names of some numbered nodes.
spec fn names(l: Seq<(Seq<char>, NodeView)>, o: Seq<usize>) -> Seq<Seq<char>> {
    Seq::new(o.len(), |i: int| l[o[i] as int].0)
}

/// Numbers the nodes in the order of their names and gives the dependencies of each.
pub fn number_nodes(nodes: &StrMap<CrateNode>) -> (r: Vec<Vec<usize>>)
    ensures
        numbered(strmap::listing(nodes@), topo::lists(r@)),
{
    let n: usize = nodes.len();
    let ghost l = strmap::listing(nodes@);
    let mut g: Vec<Vec<usize>> = Vec::new();
    for x in 0..n
        invariant
            l == strmap::listing(nodes@),
            strmap::ascending(l),
            strmap::as_map(l) == nodes@,
            n == l.len(),
            g@.len() == x,
            forall|y: int, j: int|
                0 <= y < x && 0 <= j < g@[y]@.len() ==> (#[trigger] g@[y]@[j]) < n,
            forall|y: int, d: usize|
                0 <= y < x && d < n ==> (#[trigger] g@[y]@.contains(d)
                    <==> l[y].1.crate_deps.contains(l[d as int].0)),
    {
        let deps = &nodes.value(x).crate_deps;
        let ghost ds = l[x as int].1.crate_deps;
        let m: usize = deps.len();
        let mut row: Vec<usize> = Vec::new();
        for j in 0..m
            invariant
                l == strmap::listing(nodes@),
                strmap::ascending(l),
                strmap::as_map(l) == nodes@,
                n == l.len(),
                m == deps@.len(),
                ds == deps.deep_view(),
                forall|k: int| 0 <= k < row@.len() ==> (#[trigger] row@[k]) < n,
                forall|d: usize|
                    d < n ==> (#[trigger] row@.contains(d) <==> ds.take(j as int).contains(
                        l[d as int].0,
                    )),
        {
            let ghost before = row@;
            let ghost t = ds.take(j as int);
            let ghost u = ds.take(j + 1);
            assert(u =~= t.push(ds[j as int]));
            match nodes.position(deps[j].as_str()) {
                Some(d) => {
                    row.push(d);
                    proof {
                        assert forall|e: usize| e < n implies (#[trigger] row@.contains(e)
                            <==> u.contains(l[e as int].0)) by {
                            assert(before.contains(e) <==> t.contains(l[e as int].0));
                            pushed(before, d, e);
                            pushed(t, ds[j as int], l[e as int].0);
                            if l[e as int].0 == l[d as int].0 {
                                strmap::ascending_index(l, e as int);
                                strmap::ascending_index(l, d as int);
                            }
                        }
                    }
                },
                None => {
                    proof {
                        assert forall|e: usize| e < n implies (#[trigger] row@.contains(e)
                            <==> u.contains(l[e as int].0)) by {
                            assert(before.contains(e) <==> t.contains(l[e as int].0));
                            pushed(t, ds[j as int], l[e as int].0);
                            strmap::ascending_index(l, e as int);
                        }
                    }
                },
            }
        }
        assert(ds.take(m as int) =~= ds);
        g.push(row);
    }
    proof {
        let r = topo::lists(g@);
        assert forall|x: int, j: int| 0 <= x < r.len() && 0 <= j < r[x].len() implies (
        #[trigger] r[x][j]) < r.len() by {
            assert(g@[x]@[j] < n);
        }
        assert forall|x: usize, d: usize| x < l.len() && d < l.len() implies (#[trigger] topo::depends(
            r,
            x,
            d,
        ) <==> l[x as int].1.crate_deps.contains(l[d as int].0)) by {
            assert(g@[x as int]@.contains(d) <==> l[x as int].1.crate_deps.contains(l[d as int].0));
        }
    }
    g
}

/// What a list with one more element contains.
pub proof fn pushed<T>(s: Seq<T>, x: T, y: T)
    ensures
        s.push(x).contains(y) <==> s.contains(y) || x == y,
{
    if s.contains(y) {
        let i = choose|i: int| 0 <= i < s.len() && s[i] == y;
        assert(s.push(x)[i] == y);
    }
    if x == y {
        assert(s.push(x)[s.len() as int] == y);
    }
    if s.push(x).contains(y) && x != y {
        let i = choose|i: int| 0 <= i < s.push(x).len() && s.push(x)[i] == y;
        assert(s[i] == y);
    }
}

/// The number of a listed node.
spec fn number_of(l: Seq<(Seq<char>, NodeView)>, x: Seq<char>) -> usize {
    strmap::key_index(l, x) as usize
}

proof fn number_of_listed(l: Seq<(Seq<char>, NodeView)>, x: Seq<char>)
    requires
        l.len() <= usize::MAX,
        strmap::as_map(l).contains_key(x),
    ensures
        number_of(l, x) < l.len(),
        l[number_of(l, x) as int].0 == x,
        strmap::as_map(l)[x] == l[number_of(l, x) as int].1,
{
}

/// An order of numbers is an order of names.
proof fn order_of_names(l: Seq<(Seq<char>, NodeView)>, g: Seq<Seq<usize>>, o: Seq<usize>)
    requires
        l.len() <= usize::MAX,
        strmap::ascending(l),
        numbered(l, g),
        topo::in_sequence(g, o),
        topo::exhausted(g, o),
    ensures
        in_order(strmap::as_map(l), names(l, o)),
        stuck(strmap::as_map(l), names(l, o)),
{
    let m = strmap::as_map(l);
    let w = names(l, o);
    assert forall|i: int, j: int| 0 <= i < w.len() && 0 <= j < w.len() && i != j implies w[i]
        != w[j] by {
        assert(o[i] < g.len() && o[j] < g.len());
        strmap::ascending_index(l, o[i] as int);
        strmap::ascending_index(l, o[j] as int);
    }
    assert forall|k: int| 0 <= k < w.len() implies m.contains_key(#[trigger] w[k]) by {
        assert(o[k] < g.len());
        strmap::ascending_index(l, o[k] as int);
    }
    assert forall|k: int, d: Seq<char>|
        0 <= k < w.len() && #[trigger] needs(m, w[k], d) implies w.take(k).contains(d) by {
        assert(o[k] < g.len());
        strmap::ascending_index(l, o[k] as int);
        number_of_listed(l, d);
        let e = number_of(l, d);
        assert(topo::depends(g, o[k], e));
        let t = o.take(k);
        assert(t.contains(e));
        let i = choose|i: int| 0 <= i < t.len() && t[i] == e;
        assert(w.take(k)[i] == d);
    }
    names_are_stuck(l, g, o);
}

/// A node that is missing from an exhausted order waits for another that is missing.
proof fn missing_waits(
    l: Seq<(Seq<char>, NodeView)>,
    g: Seq<Seq<usize>>,
    o: Seq<usize>,
    x: Seq<char>,
) -> (d: Seq<char>)
    requires
        l.len() <= usize::MAX,
        strmap::ascending(l),
        numbered(l, g),
        topo::in_sequence(g, o),
        topo::exhausted(g, o),
        strmap::as_map(l).contains_key(x),
        !names(l, o).contains(x),
    ensures
        needs(strmap::as_map(l), x, d),
        !names(l, o).contains(d),
{
    let w = names(l, o);
    number_of_listed(l, x);
    let a = number_of(l, x);
    if o.contains(a) {
        let i = choose|i: int| 0 <= i < o.len() && o[i] == a;
        assert(w[i] == x);
    }
    let e = choose|e: usize| #[trigger] topo::depends(g, a, e) && !o.contains(e);
    assert(topo::depends(g, a, e) && !o.contains(e));
    let row = g[a as int];
    let j = choose|j: int| 0 <= j < row.len() && row[j] == e;
    assert(g[a as int][j] < g.len());
    let d = l[e as int].0;
    strmap::ascending_index(l, e as int);
    if w.contains(d) {
        let i = choose|i: int| 0 <= i < w.len() && w[i] == d;
        assert(o[i] < g.len());
        strmap::ascending_index(l, o[i] as int);
        assert(o[i] == e);
    }
    d
}

/// What is exhausted in numbers is stuck in names.
proof fn names_are_stuck(l: Seq<(Seq<char>, NodeView)>, g: Seq<Seq<usize>>, o: Seq<usize>)
    requires
        l.len() <= usize::MAX,
        strmap::ascending(l),
        numbered(l, g),
        topo::in_sequence(g, o),
        topo::exhausted(g, o),
    ensures
        stuck(strmap::as_map(l), names(l, o)),
{
    let m = strmap::as_map(l);
    let w = names(l, o);
    assert forall|x: Seq<char>| m.contains_key(x) && !(#[trigger] w.contains(x)) implies exists|
        d: Seq<char>,
    | #[trigger] needs(m, x, d) && !w.contains(d) by {
        let d = missing_waits(l, g, o, x);
        assert(needs(m, x, d));
    }
}

proof fn depends_is_needs(
    l: Seq<(Seq<char>, NodeView)>,
    g: Seq<Seq<usize>>,
    x: usize,
    d: usize,
)
    requires
        strmap::ascending(l),
        numbered(l, g),
        topo::depends(g, x, d),
    ensures
        needs(strmap::as_map(l), l[x as int].0, l[d as int].0),
{
    let row = g[x as int];
    let j = choose|j: int| 0 <= j < row.len() && row[j] == d;
    assert(g[x as int][j] < g.len());
    strmap::ascending_index(l, x as int);
    strmap::ascending_index(l, d as int);
}

proof fn needs_is_depends(
    l: Seq<(Seq<char>, NodeView)>,
    g: Seq<Seq<usize>>,
    x: Seq<char>,
    d: Seq<char>,
)
    requires
        l.len() <= usize::MAX,
        strmap::ascending(l),
        numbered(l, g),
        needs(strmap::as_map(l), x, d),
    ensures
        topo::depends(g, number_of(l, x), number_of(l, d)),
{
    number_of_listed(l, x);
    number_of_listed(l, d);
}

/// A cycle of numbers is a cycle of names.
proof fn cycle_has_names(l: Seq<(Seq<char>, NodeView)>, g: Seq<Seq<usize>>, c: Seq<usize>)
    requires
        strmap::ascending(l),
        numbered(l, g),
        topo::is_cycle(g, c),
    ensures
        cyclic(strmap::as_map(l)),
{
    let m = strmap::as_map(l);
    let w = names(l, c);
    assert forall|i: int| 0 <= i < w.len() - 1 implies #[trigger] needs(m, w[i], w[i + 1]) by {
        assert(topo::depends(g, c[i], c[i + 1]));
        depends_is_needs(l, g, c[i], c[i + 1]);
    }
    depends_is_needs(l, g, c.last(), c[0]);
    assert(is_round(m, w));
}

/// A cycle of names is a cycle of numbers.
proof fn cycle_has_numbers(l: Seq<(Seq<char>, NodeView)>, g: Seq<Seq<usize>>)
    requires
        l.len() <= usize::MAX,
        strmap::ascending(l),
        numbered(l, g),
        cyclic(strmap::as_map(l)),
    ensures
        exists|c: Seq<usize>| topo::is_cycle(g, c),
{
    let m = strmap::as_map(l);
    let w = choose|w: Seq<Seq<char>>| is_round(m, w);
    let c = Seq::new(w.len(), |i: int| number_of(l, w[i]));
    assert forall|i: int| 0 <= i < c.len() - 1 implies #[trigger] topo::depends(g, c[i], c[i + 1]) by {
        assert(needs(m, w[i], w[i + 1]));
        needs_is_depends(l, g, w[i], w[i + 1]);
    }
    needs_is_depends(l, g, w.last(), w[0]);
    assert(topo::is_cycle(g, c));
}

/// Sorts the nodes so that each comes behind all it depends on. A graph with a cycle is refused,
/// with the number of nodes that do not wait for the cycle.
pub fn topo_sort(nodes: &StrMap<CrateNode>) -> (r: Result<Vec<String>, String>)
    ensures
        match r {
            Ok(o) => {
                &&& in_order(nodes@, o.deep_view())
                &&& o.deep_view().to_set() == nodes@.dom()
                &&& !cyclic(nodes@)
            },
            Err(e) => {
                &&& cyclic(nodes@)
                &&& exists|o: Seq<Seq<char>>| #[trigger]
                    in_order(nodes@, o) && stuck(nodes@, o) && e@ == cycle_text(
                        o.len(),
                        strmap::listing(nodes@).len(),
                    )
            },
        },
{
    let n: usize = nodes.len();
    let ghost l = strmap::listing(nodes@);
    let g = number_nodes(nodes);
    let ghost gs = topo::lists(g@);
    let order = topo::order_of(&g);
    proof {
        order_of_names(l, gs, order@);
        topo::distinct_below(order@, n as nat);
    }
    if order.len() != n {
        let mut e = "cycle detected: sorted ".to_owned();
        e.append(text::usize_text(order.len()).as_str());
        e.append(" of ");
        e.append(text::usize_text(n).as_str());
        e.append(" nodes");
        proof {
            assert(in_order(nodes@, names(l, order@)));
            if forall|x: usize| x < gs.len() ==> #[trigger] order@.contains(x) {
                every_number(order@, n as nat);
            }
            let x = choose|x: usize| x < gs.len() && !(#[trigger] order@.contains(x));
            topo::stuck_graph_has_cycle(gs, order@, x);
            cycle_has_names(l, gs, choose|c: Seq<usize>| topo::is_cycle(gs, c));
        }
        return Err(e);
    }
    let mut out: Vec<String> = Vec::new();
    for i in 0..n
        invariant
            n == l.len(),
            l == strmap::listing(nodes@),
            order@.len() == n,
            forall|k: int| 0 <= k < order@.len() ==> (#[trigger] order@[k]) < n,
            out@.len() == i,
            forall|k: int| 0 <= k < i ==> (#[trigger] out@[k])@ == l[order@[k] as int].0,
    {
        assert(order@[i as int] < n);
        out.push(nodes.key(order[i]).clone());
    }
    proof {
        let w = names(l, order@);
        assert(out.deep_view() =~= w);
        all_distinct_fill(order@, n as nat);
        if cyclic(nodes@) {
            cycle_has_numbers(l, gs);
            let c = choose|c: Seq<usize>| topo::is_cycle(gs, c);
            topo::ordered_graph_has_no_cycle(gs, order@, c);
        }
        assert(w.to_set() =~= nodes@.dom()) by {
            assert forall|x: Seq<char>| nodes@.contains_key(x) implies w.contains(x) by {
                number_of_listed(l, x);
                let a = number_of(l, x);
                assert(order@.contains(a));
                let i = choose|i: int| 0 <= i < order@.len() && order@[i] == a;
                assert(w[i] == x);
            }
        }
    }
    Ok(out)
}

/// A list with every number below `n` has at least `n` elements.
proof fn every_number(s: Seq<usize>, n: nat)
    requires
        n <= usize::MAX,
        forall|x: usize| x < n ==> #[trigger] s.contains(x),
    ensures
        s.len() >= n,
{
    let all = vstd::set_lib::set_int_range(0, n as int);
    vstd::set_lib::lemma_int_range(0, n as int);
    let img = s.to_set().map(|x: usize| x as int);
    vstd::seq_lib::seq_to_set_is_finite(s);
    vstd::set_lib::lemma_map_size_bound(s.to_set(), img, |x: usize| x as int);
    assert forall|i: int| all.contains(i) implies img.contains(i) by {
        assert(s.contains(i as usize));
        assert(s.to_set().contains(i as usize));
    }
    vstd::set_lib::lemma_len_subset(all, img);
    s.lemma_cardinality_of_set();
}

/// `n` distinct numbers below `n` are all of them.
proof fn all_distinct_fill(s: Seq<usize>, n: nat)
    requires
        s.no_duplicates(),
        s.len() == n,
        forall|i: int| 0 <= i < s.len() ==> (#[trigger] s[i]) < n,
    ensures
        forall|x: usize| x < n ==> #[trigger] s.contains(x),
{
    assert forall|x: usize| x < n implies #[trigger] s.contains(x) by {
        if !s.contains(x) {
            let t = s.push(x);
            assert(t.no_duplicates()) by {
                assert forall|i: int, j: int| 0 <= i < t.len() && 0 <= j < t.len() && i != j implies t[i]
                    != t[j] by {
                    if i == s.len() {
                        assert(s[j] != x);
                    } else if j == s.len() {
                        assert(s[i] != x);
                    }
                }
            }
            topo::distinct_below(t, n);
        }
    }
}

/// Whether a derivation is a unit that is replayed: a crate, which names itself in `crateName`,
/// or one that is declared by its path.
pub open spec fn unit(declared: Set<Seq<char>>, path: Seq<char>, d: DrvView) -> bool {
    d.env.contains_key("crateName"@) || declared.contains(path)
}

/// What the store holds at the path of a derivation, where it holds anything: the contents of the
/// file, or why it could not be read.
pub enum DrvFile {
    Unreadable(String),
    Contents(Vec<u8>),
}

/// What a [`DrvFile`] holds.
pub enum FileView {
    Unreadable(Seq<char>),
    Contents(Seq<u8>),
}

impl DeepView for DrvFile {
    type V = FileView;

    open spec fn deep_view(&self) -> FileView {
        match self {
            DrvFile::Unreadable(e) => FileView::Unreadable(e@),
            DrvFile::Contents(b) => FileView::Contents(b@),
        }
    }
}

/// A walk from the roots: what is still to be looked at, what has been, and the units found.
#[verifier::ext_equal]
pub struct WalkView {
    pub queue: Seq<Seq<char>>,
    pub visited: Set<Seq<char>>,
    pub units: Map<Seq<char>, DrvView>,
}

/// The next path that has not been looked at, and the walk with it marked.
pub open spec fn next_path(w: WalkView) -> Option<(Seq<char>, WalkView)>
    decreases w.queue.len(),
{
    if w.queue.len() == 0 {
        None
    } else if w.visited.contains(w.queue[0]) {
        next_path(WalkView { queue: w.queue.drop_first(), ..w })
    } else {
        Some(
            (
                w.queue[0],
                WalkView {
                    queue: w.queue.drop_first(),
                    visited: w.visited.insert(w.queue[0]),
                    units: w.units,
                },
            ),
        )
    }
}

/// The walk after the file at path `p` was looked at. A file that is missing, or no unit, leaves
/// it as it is; a unit adds all its input derivations to what is to be looked at.
pub open spec fn looked_at(
    w: WalkView,
    declared: Set<Seq<char>>,
    p: Seq<char>,
    file: Option<FileView>,
) -> Result<WalkView, Seq<char>> {
    match file {
        None => Ok(w),
        Some(FileView::Unreadable(e)) => Err("reading "@ + p + ": "@ + e),
        Some(FileView::Contents(b)) => match drv::read_drv(b) {
            Err(e) => Err("parsing "@ + p + ": "@ + e),
            Ok(d) => if unit(declared, p, d) {
                Ok(
                    WalkView {
                        queue: w.queue + strmap::keys_of(strmap::listing(d.input_derivations)),
                        visited: w.visited,
                        units: w.units.insert(p, d),
                    },
                )
            } else {
                Ok(w)
            },
        },
    }
}

/// A walk through the derivations that the roots lead to. Its caller looks at each path that
/// [`GraphWalk::next`] gives and hands what it found to [`GraphWalk::found`].
pub struct GraphWalk {
    queue: Vec<String>,
    head: usize,
    visited: StrSet,
    declared: StrSet,
    units: StrMap<Derivation>,
}

impl View for GraphWalk {
    type V = WalkView;

    closed spec fn view(&self) -> WalkView {
        WalkView {
            queue: self.queue.deep_view().skip(self.head as int),
            visited: self.visited@,
            units: self.units@,
        }
    }
}

impl GraphWalk {
    /// The walk has not gone past the end of its queue.
    pub closed spec fn wf(&self) -> bool {
        self.head <= self.queue@.len()
    }

    /// The derivations that are units by their path.
    pub closed spec fn declared_units(&self) -> Set<Seq<char>> {
        self.declared@
    }

    /// A walk that has yet to look at the roots.
    pub fn new(roots: &Vec<String>, declared: StrSet) -> (r: Self)
        ensures
            r.wf(),
            r.declared_units() == declared@,
            r@ == (WalkView {
                queue: roots.deep_view(),
                visited: Set::empty(),
                units: Map::empty(),
            }),
    {
        let mut queue: Vec<String> = Vec::new();
        for i in 0..roots.len()
            invariant
                queue@.len() == i,
                forall|k: int| 0 <= k < i ==> (#[trigger] queue@[k])@ == roots@[k]@,
        {
            queue.push(roots[i].clone());
        }
        assert(queue.deep_view().skip(0) =~= roots.deep_view());
        GraphWalk { queue, head: 0, visited: StrSet::new(), declared, units: StrMap::new() }
    }

    /// The next path to look at.
    pub fn next(&mut self) -> (r: Option<String>)
        requires
            old(self).wf(),
        ensures
            final(self).wf(),
            final(self).declared_units() == old(self).declared_units(),
            match r {
                Some(p) => next_path(old(self)@) == Some((p@, final(self)@)),
                None => {
                    &&& next_path(old(self)@) is None
                    &&& final(self)@ == (WalkView { queue: Seq::empty(), ..old(self)@ })
                },
            },
    {
        while self.head < self.queue.len()
            invariant
                self.wf(),
                self.declared_units() == old(self).declared_units(),
                self@.visited == old(self)@.visited,
                self@.units == old(self)@.units,
                next_path(self@) == next_path(old(self)@),
            decreases self.queue.len() - self.head,
        {
            let ghost w = self@;
            let p = self.queue[self.head].clone();
            self.head = self.head + 1;
            assert(w.queue[0] == p@);
            assert(self@.queue =~= w.queue.drop_first());
            if self.visited.insert(p.clone()) {
                assert(self@ =~= next_path(w)->Some_0.1);
                return Some(p);
            }
            assert(self@.visited =~= w.visited);
        }
        assert(self@.queue =~= Seq::empty());
        None
    }

    /// Takes note of what stands at a path.
    pub fn found(&mut self, p: &str, file: Option<&DrvFile>) -> (r: Result<(), String>)
        requires
            old(self).wf(),
        ensures
            final(self).wf(),
            final(self).declared_units() == old(self).declared_units(),
            match r {
                Ok(_) => looked_at(
                    old(self)@,
                    old(self).declared_units(),
                    p@,
                    match file {
                        Some(f) => Some(f.deep_view()),
                        None => None,
                    },
                ) == Ok::<WalkView, Seq<char>>(final(self)@),
                Err(e) => looked_at(
                    old(self)@,
                    old(self).declared_units(),
                    p@,
                    match file {
                        Some(f) => Some(f.deep_view()),
                        None => None,
                    },
                ) == Err::<WalkView, Seq<char>>(e@),
            },
    {
        let bytes = match file {
            None => {
                return Ok(());
            },
            Some(DrvFile::Unreadable(e)) => {
                let mut s = "reading ".to_owned();
                s.append(p);
                s.append(": ");
                s.append(e.as_str());
                return Err(s);
            },
            Some(DrvFile::Contents(b)) => b,
        };
        let d = match Derivation::parse(bytes.as_slice()) {
            Ok(d) => d,
            Err(e) => {
                let mut s = "parsing ".to_owned();
                s.append(p);
                s.append(": ");
                s.append(e.as_str());
                return Err(s);
            },
        };
        if !d.env.contains_key("crateName") && !self.declared.contains(p) {
            return Ok(());
        }
        let ghost w = self@;
        let ghost l = strmap::listing(d.input_derivations@);
        let n: usize = d.input_derivations.len();
        for i in 0..n
            invariant
                self.wf(),
                self.declared_units() == old(self).declared_units(),
                l == strmap::listing(d.input_derivations@),
                n == l.len(),
                w == old(self)@,
                self@.visited == w.visited,
                self@.units == w.units,
                self@.queue == w.queue + strmap::keys_of(l).take(i as int),
        {
            let ghost q = self@.queue;
            let ghost all = self.queue.deep_view();
            self.queue.push(d.input_derivations.key(i).clone());
            assert(self.queue.deep_view() =~= all.push(l[i as int].0));
            assert(self@.queue =~= q.push(l[i as int].0));
            assert(strmap::keys_of(l).take(i + 1) =~= strmap::keys_of(l).take(i as int).push(l[i as int].0));
        }
        assert(strmap::keys_of(l).take(n as int) =~= strmap::keys_of(l));
        self.units.insert(p.to_owned(), d);
        Ok(())
    }
}

/// The keys of a listing that are in a set.
pub open spec fn keys_within<V>(l: Seq<(Seq<char>, V)>, dom: Set<Seq<char>>) -> Seq<Seq<char>>
    decreases l.len(),
{
    if l.len() == 0 {
        Seq::empty()
    } else if dom.contains(l.last().0) {
        keys_within(l.drop_last(), dom).push(l.last().0)
    } else {
        keys_within(l.drop_last(), dom)
    }
}

/// A unit as a node: its dependencies are its input derivations that are units too.
pub open spec fn linked_node(units: Map<Seq<char>, DrvView>, k: Seq<char>) -> NodeView {
    NodeView {
        drv_path: k,
        drv: units[k],
        crate_deps: keys_within(strmap::listing(units[k].input_derivations), units.dom()),
    }
}

/// The nodes of some units.
pub open spec fn linked(units: Map<Seq<char>, DrvView>) -> Map<Seq<char>, NodeView> {
    Map::new(|k: Seq<char>| units.contains_key(k), |k: Seq<char>| linked_node(units, k))
}

proof fn keys_within_are_in<V>(l: Seq<(Seq<char>, V)>, dom: Set<Seq<char>>, k: Seq<char>)
    ensures
        keys_within(l, dom).contains(k) ==> dom.contains(k),
    decreases l.len(),
{
    if l.len() > 0 {
        keys_within_are_in(l.drop_last(), dom, k);
        if dom.contains(l.last().0) {
            pushed(keys_within(l.drop_last(), dom), l.last().0, k);
        }
    }
}

/// The dependencies of linked nodes are nodes.
pub proof fn linked_is_closed(units: Map<Seq<char>, DrvView>)
    ensures
        deps_closed(linked(units)),
{
    let nodes = linked(units);
    assert forall|x: Seq<char>, d: Seq<char>|
        nodes.contains_key(x) && #[trigger] nodes[x].crate_deps.contains(
            d,
        ) implies nodes.contains_key(d) by {
        keys_within_are_in(strmap::listing(units[x].input_derivations), units.dom(), d);
    }
}

/// The build graph.
#[derive(Debug)]
pub struct BuildGraph {
    pub nodes: StrMap<CrateNode>,
    /// The nodes, dependencies before dependents.
    pub topo_order: Vec<String>,
}

impl BuildGraph {
    /// Every dependency is a node, and the order holds every node, each behind all it depends on.
    pub open spec fn wf(&self) -> bool {
        &&& deps_closed(self.nodes@)
        &&& in_order(self.nodes@, self.topo_order.deep_view())
        &&& self.topo_order.deep_view().to_set() == self.nodes@.dom()
    }

    /// The number of units.
    pub fn crate_count(&self) -> (n: usize)
        ensures
            n == strmap::listing(self.nodes@).len(),
    {
        self.nodes.len()
    }
}

impl GraphWalk {
    /// Links the units found into a graph.
    pub fn finish(self) -> (r: Result<BuildGraph, String>)
        ensures
            match r {
                Ok(g) => g.wf() && g.nodes@ == linked(self@.units) && !cyclic(linked(self@.units)),
                Err(e) => {
                    &&& cyclic(linked(self@.units))
                    &&& exists|o: Seq<Seq<char>>| #[trigger]
                        in_order(linked(self@.units), o) && stuck(linked(self@.units), o) && e@
                            == cycle_text(o.len(), strmap::listing(linked(self@.units)).len())
                },
            },
    {
        let mut units = self.units;
        let ghost all = units@;
        let ghost l = strmap::listing(all);
        let n: usize = units.len();
        let mut names: StrSet = StrSet::new();
        for i in 0..n
            invariant
                all == units@,
                l == strmap::listing(all),
                n == l.len(),
                forall|k: Seq<char>|
                    #[trigger] names@.contains(k) <==> strmap::has_key(l.take(i as int), k),
        {
            let ghost before = names@;
            names.insert(units.key(i).clone());
            proof {
                assert forall|k: Seq<char>| #[trigger] names@.contains(k) <==> strmap::has_key(
                    l.take(i + 1),
                    k,
                ) by {
                    assert(before.contains(k) <==> strmap::has_key(l.take(i as int), k));
                    strmap::one_more_key(l, i as int, k);
                }
            }
        }
        proof {
            assert(l.take(n as int) =~= l);
            assert(names@ =~= all.dom());
        }
        let mut nodes: StrMap<CrateNode> = StrMap::new();
        let ghost mut left: int = n as int;
        proof {
            assert(nodes@ =~= Map::new(
                |k: Seq<char>| strmap::has_key(l.skip(left), k),
                |k: Seq<char>| linked_node(all, k),
            ));
            assert(l.take(left) =~= l);
        }
        loop
            invariant_except_break
                0 <= left <= l.len(),
            invariant
                names@ == all.dom(),
                l == strmap::listing(all),
                strmap::ascending(l),
                strmap::as_map(l) == all,
                0 <= left <= l.len(),
                strmap::listing(units@) == l.take(left),
                nodes@ == Map::new(
                    |k: Seq<char>| strmap::has_key(l.skip(left), k),
                    |k: Seq<char>| linked_node(all, k),
                ),
            ensures
                left == 0,
            decreases left,
        {
            match units.pop_last() {
                None => {
                    break;
                },
                Some((k, d)) => {
                    let ghost i = left - 1;
                    proof {
                        assert(l.take(left).last() == l[i]);
                        strmap::ascending_index(l, i);
                    }
                    let crate_deps = deps_within(&d.input_derivations, &names);
                    let ghost before = nodes@;
                    let node = CrateNode { drv_path: k.clone(), drv: d, crate_deps };
                    assert(node.deep_view() == linked_node(all, k@));
                    nodes.insert(k, node);
                    proof {
                        assert(l.take(left).drop_last() =~= l.take(i));
                        assert forall|x: Seq<char>|
                            strmap::has_key(l.skip(i), x) <==> strmap::has_key(l.skip(left), x)
                                || x == k@ by {
                            if strmap::has_key(l.skip(left), x) {
                                let j = strmap::key_index(l.skip(left), x);
                                assert(l.skip(i)[j + 1].0 == x);
                            }
                            if strmap::has_key(l.skip(i), x) {
                                let j = strmap::key_index(l.skip(i), x);
                                if j > 0 {
                                    assert(l.skip(left)[j - 1].0 == x);
                                }
                            }
                            assert(l.skip(i)[0].0 == k@);
                        }
                        assert(nodes@ =~= Map::new(
                            |k: Seq<char>| strmap::has_key(l.skip(i), k),
                            |k: Seq<char>| linked_node(all, k),
                        ));
                        left = i;
                    }
                },
            }
        }
        proof {
            assert(l.skip(0) =~= l);
            assert(nodes@ =~= linked(all));
            linked_is_closed(all);
        }
        match topo_sort(&nodes) {
            Ok(topo_order) => Ok(BuildGraph { nodes, topo_order }),
            Err(e) => Err(e),
        }
    }
}

fn deps_within(inputs: &StrMap<Vec<String>>, names: &StrSet) -> (r: Vec<String>)
    ensures
        r.deep_view() == keys_within(strmap::listing(inputs@), names@),
{
    let ghost l = strmap::listing(inputs@);
    let n: usize = inputs.len();
    let mut out: Vec<String> = Vec::new();
    assert(out.deep_view() =~= keys_within(l.take(0), names@));
    for i in 0..n
        invariant
            l == strmap::listing(inputs@),
            n == l.len(),
            out.deep_view() == keys_within(l.take(i as int), names@),
    {
        let ghost before = out.deep_view();
        assert(l.take(i + 1).drop_last() =~= l.take(i as int));
        if names.contains(inputs.key(i).as_str()) {
            out.push(inputs.key(i).clone());
            assert(out.deep_view() =~= before.push(l[i as int].0));
        }
    }
    assert(l.take(n as int) =~= l);
    out
}

/// What the store holds at a path.
pub open spec fn file_at(store: Map<Seq<char>, FileView>, p: Seq<char>) -> Option<FileView> {
    if store.contains_key(p) {
        Some(store[p])
    } else {
        None
    }
}

proof fn next_path_is_new(w: WalkView)
    ensures
        next_path(w) matches Some((p, v)) ==> {
            &&& !w.visited.contains(p)
            &&& w.queue.contains(p)
            &&& v.visited == w.visited.insert(p)
            &&& v.units == w.units
            &&& v.queue.len() < w.queue.len()
            &&& forall|q: Seq<char>| v.queue.contains(q) ==> w.queue.contains(q)
            &&& forall|q: Seq<char>|
                w.queue.contains(q) ==> v.visited.contains(q) || v.queue.contains(q)
        },
        next_path(w) is None ==> forall|q: Seq<char>| #[trigger]
            w.queue.contains(q) ==> w.visited.contains(q),
    decreases w.queue.len(),
{
    if w.queue.len() > 0 {
        let q0 = w.queue[0];
        let rest = w.queue.drop_first();
        assert forall|q: Seq<char>| #[trigger] w.queue.contains(q) <==> q == q0 || rest.contains(q) by {
            if w.queue.contains(q) && q != q0 {
                let i = choose|i: int| 0 <= i < w.queue.len() && w.queue[i] == q;
                assert(rest[i - 1] == q);
            }
            if rest.contains(q) {
                let i = choose|i: int| 0 <= i < rest.len() && rest[i] == q;
                assert(w.queue[i + 1] == q);
            }
        }
        if w.visited.contains(q0) {
            next_path_is_new(WalkView { queue: rest, ..w });
        }
    }
}

/// The units that a walk finds in a store, or the message of the first file that cannot be read
/// or parsed.
pub open spec fn walked(
    w: WalkView,
    declared: Set<Seq<char>>,
    store: Map<Seq<char>, FileView>,
) -> Result<Map<Seq<char>, DrvView>, Seq<char>>
    decreases store.dom().difference(w.visited).len(), w.queue.len(),
    when store.dom().finite()
    via walk_ends
{
    match next_path(w) {
        None => Ok(w.units),
        Some((p, v)) => match looked_at(v, declared, p, file_at(store, p)) {
            Ok(u) => walked(u, declared, store),
            Err(e) => Err(e),
        },
    }
}

#[via_fn]
proof fn walk_ends(w: WalkView, declared: Set<Seq<char>>, store: Map<Seq<char>, FileView>) {
    next_path_is_new(w);
    if let Some((p, v)) = next_path(w) {
        unvisited_shrink(store.dom(), w.visited, p);
    }
}

/// Looking at a path leaves fewer paths of the store to look at, if it is one of them.
proof fn unvisited_shrink(dom: Set<Seq<char>>, visited: Set<Seq<char>>, p: Seq<char>)
    requires
        dom.finite(),
        !visited.contains(p),
    ensures
        dom.contains(p) ==> dom.difference(visited.insert(p)).len() < dom.difference(visited).len(),
        !dom.contains(p) ==> dom.difference(visited.insert(p)) == dom.difference(visited),
{
    let a = dom.difference(visited);
    let b = dom.difference(visited.insert(p));
    if dom.contains(p) {
        assert(a.remove(p) =~= b);
    } else {
        assert(a =~= b);
    }
}

/// The walk from the roots before its first step.
pub open spec fn walk_start(roots: Seq<Seq<char>>) -> WalkView {
    WalkView { queue: roots, visited: Set::empty(), units: Map::empty() }
}

/// The set of a map's keys is finite.
proof fn listed_keys_are_finite<V>(l: Seq<(Seq<char>, V)>)
    ensures
        strmap::as_map(l).dom().finite(),
{
    let ks = strmap::keys_of(l);
    vstd::seq_lib::seq_to_set_is_finite(ks);
    assert(strmap::as_map(l).dom() =~= ks.to_set()) by {
        assert forall|k: Seq<char>| strmap::has_key(l, k) <==> ks.contains(k) by {
            if strmap::has_key(l, k) {
                let i = strmap::key_index(l, k);
                assert(ks[i] == k);
            }
            if ks.contains(k) {
                let i = choose|i: int| 0 <= i < ks.len() && ks[i] == k;
                assert(l[i].0 == k);
            }
        }
    }
}

impl BuildGraph {
    /// Builds the graph of the units that the roots lead to, from the derivations that a store
    /// holds. A path that the store does not hold is passed over.
    pub fn from_roots(
        root_drv_paths: &Vec<String>,
        declared: StrSet,
        store: &StrMap<DrvFile>,
    ) -> (r: Result<Self, String>)
        ensures
            match walked(walk_start(root_drv_paths.deep_view()), declared@, store@) {
                Ok(units) => match r {
                    Ok(g) => g.wf() && g.nodes@ == linked(units) && !cyclic(linked(units)),
                    Err(e) => {
                        &&& cyclic(linked(units))
                        &&& exists|o: Seq<Seq<char>>| #[trigger]
                            in_order(linked(units), o) && stuck(linked(units), o) && e@
                                == cycle_text(o.len(), strmap::listing(linked(units)).len())
                    },
                },
                Err(m) => r matches Err(e) && e@ == m,
            },
    {
        let mut walk = GraphWalk::new(root_drv_paths, declared);
        let ghost start = walk@;
        let n: usize = store.len();
        proof {
            listed_keys_are_finite(strmap::listing(store@));
        }
        loop
            invariant
                walk.wf(),
                walk.declared_units() == declared@,
                start == walk_start(root_drv_paths.deep_view()),
                store@.dom().finite(),
                walked(walk@, declared@, store@) == walked(start, declared@, store@),
            ensures
                walked(start, declared@, store@) == Ok::<Map<Seq<char>, DrvView>, Seq<char>>(
                    walk@.units,
                ),
            decreases store@.dom().difference(walk@.visited).len(), walk@.queue.len(),
        {
            let ghost w = walk@;
            proof {
                next_path_is_new(w);
            }
            match walk.next() {
                None => {
                    break;
                },
                Some(p) => {
                    proof {
                        unvisited_shrink(store@.dom(), w.visited, p@);
                    }
                    match walk.found(p.as_str(), store.get(p.as_str())) {
                        Ok(_) => {},
                        Err(e) => {
                            return Err(e);
                        },
                    }
                },
            }
        }
        walk.finish()
    }
}

/// An output that is asked of a derivation is not there.
pub open spec fn lacks(
    store: Map<Seq<char>, FileView>,
    existing: Set<Seq<char>>,
    d: Seq<char>,
    outs: Seq<Seq<char>>,
) -> bool {
    match file_at(store, d) {
        Some(FileView::Contents(b)) => match drv::read_drv(b) {
            Ok(dep) => exists|j: int|
                0 <= j < outs.len() && dep.outputs.contains_key(#[trigger] outs[j])
                    && !existing.contains(dep.outputs[outs[j]].path),
            Err(_) => false,
        },
        _ => false,
    }
}

/// Node `x` has an input `d` outside the graph of which an output is not there.
pub open spec fn lacks_input(
    nodes: Map<Seq<char>, NodeView>,
    store: Map<Seq<char>, FileView>,
    existing: Set<Seq<char>>,
    x: Seq<char>,
    d: Seq<char>,
) -> bool {
    &&& nodes.contains_key(x)
    &&& !nodes.contains_key(d)
    &&& nodes[x].drv.input_derivations.contains_key(d)
    &&& lacks(store, existing, d, nodes[x].drv.input_derivations[d])
}

fn output_lacking(file: Option<&DrvFile>, outs: &Vec<String>, existing: &StrSet) -> (r: bool)
    ensures
        forall|store: Map<Seq<char>, FileView>, d: Seq<char>|
            file_at(store, d) == (match file {
                Some(f) => Some(f.deep_view()),
                None => None,
            }) ==> r == #[trigger] lacks(store, existing@, d, outs.deep_view()),
{
    let bytes = match file {
        Some(DrvFile::Contents(b)) => b,
        _ => {
            return false;
        },
    };
    match Derivation::parse(bytes.as_slice()) {
        Err(_) => false,
        Ok(dep) => {
            let ghost os = outs.deep_view();
            let ghost dv = dep.deep_view();
            for j in 0..outs.len()
                invariant
                    os == outs.deep_view(),
                    dv == dep.deep_view(),
                    drv::read_drv(bytes@) == Ok::<DrvView, Seq<char>>(dv),
                    file == Some(&DrvFile::Contents(*bytes)),
                    forall|i: int|
                        0 <= i < j ==> !(dv.outputs.contains_key(#[trigger] os[i])
                            && !existing@.contains(dv.outputs[os[i]].path)),
            {
                match dep.outputs.get(outs[j].as_str()) {
                    Some(o) => {
                        if !existing.contains(o.path.as_str()) {
                            assert(dv.outputs.contains_key(os[j as int]));
                            return true;
                        }
                    },
                    None => {},
                }
            }
            false
        },
    }
}

impl BuildGraph {
    /// The derivations outside the graph that its nodes take as inputs and of which an output is
    /// not there: they must be realised before anything is built. `existing` holds the paths that
    /// are there.
    pub fn non_crate_inputs(&self, store: &StrMap<DrvFile>, existing: &StrSet) -> (r: Vec<String>)
        ensures
            r.deep_view().no_duplicates(),
            forall|d: Seq<char>|
                #[trigger] r.deep_view().contains(d) <==> exists|x: Seq<char>| #[trigger]
                    lacks_input(self.nodes@, store@, existing@, x, d),
    {
        let mut seen: StrSet = StrSet::new();
        let mut out: Vec<String> = Vec::new();
        let n: usize = self.nodes.len();
        let ghost nodes = self.nodes@;
        let ghost l = strmap::listing(nodes);
        for i in 0..n
            invariant
                nodes == self.nodes@,
                l == strmap::listing(nodes),
                strmap::ascending(l),
                strmap::as_map(l) == nodes,
                n == l.len(),
                out.deep_view().no_duplicates(),
                seen@ == out.deep_view().to_set(),
                forall|d: Seq<char>|
                    #[trigger] seen@.contains(d) <==> exists|a: int|
                        0 <= a < i && lacks_input(nodes, store@, existing@, (#[trigger] l[a]).0, d),
        {
            let inputs = &self.nodes.value(i).drv.input_derivations;
            let m: usize = inputs.len();
            let ghost il = strmap::listing(inputs@);
            let ghost x = l[i as int].0;
            let ghost seen0 = seen@;
            proof {
                strmap::ascending_index(l, i as int);
            }
            for j in 0..m
                invariant
                    nodes == self.nodes@,
                    l == strmap::listing(nodes),
                    n == l.len(),
                    i < n,
                    x == l[i as int].0,
                    nodes.contains_key(x),
                    nodes[x].drv.input_derivations == inputs@,
                    il == strmap::listing(inputs@),
                    strmap::ascending(il),
                    strmap::as_map(il) == inputs@,
                    m == il.len(),
                    out.deep_view().no_duplicates(),
                    seen@ == out.deep_view().to_set(),
                    forall|d: Seq<char>|
                        #[trigger] seen@.contains(d) <==> seen0.contains(d) || exists|b: int|
                            0 <= b < j && (#[trigger] il[b]).0 == d && lacks_input(
                                nodes,
                                store@,
                                existing@,
                                x,
                                d,
                            ),
            {
                let d = inputs.key(j);
                let ghost before = seen@;
                let ghost out0 = out.deep_view();
                proof {
                    strmap::ascending_index(il, j as int);
                }
                let missing = !self.nodes.contains_key(d.as_str()) && output_lacking(
                    store.get(d.as_str()),
                    inputs.value(j),
                    existing,
                );
                proof {
                    assert(file_at(store@, d@) == (match store@.contains_key(d@) {
                        true => Some(store@[d@]),
                        false => None,
                    }));
                    assert(missing == lacks_input(nodes, store@, existing@, x, d@));
                }
                if missing && seen.insert(d.clone()) {
                    out.push(d.clone());
                    proof {
                        assert(out.deep_view() =~= out0.push(d@));
                        assert(!out0.contains(d@));
                        assert(out.deep_view().to_set() =~= out0.to_set().insert(d@)) by {
                            assert forall|e: Seq<char>|
                                out0.push(d@).contains(e) <==> out0.contains(e) || e == d@ by {
                                pushed(out0, d@, e);
                            }
                        }
                    }
                } else {
                    assert(seen@ =~= before);
                }
                proof {
                    assert forall|e: Seq<char>| #[trigger] seen@.contains(e) <==> seen0.contains(e)
                        || exists|b: int|
                        0 <= b < j + 1 && (#[trigger] il[b]).0 == e && lacks_input(
                            nodes,
                            store@,
                            existing@,
                            x,
                            e,
                        ) by {
                        assert(before.contains(e) <==> seen0.contains(e) || exists|b: int|
                            0 <= b < j && (#[trigger] il[b]).0 == e && lacks_input(
                                nodes,
                                store@,
                                existing@,
                                x,
                                e,
                            ));
                        if e == d@ && missing {
                            assert(il[j as int].0 == e);
                        }
                    }
                }
            }
            proof {
                assert forall|d: Seq<char>| #[trigger] seen@.contains(d) <==> exists|a: int|
                    0 <= a < i + 1 && lacks_input(
                        nodes,
                        store@,
                        existing@,
                        (#[trigger] l[a]).0,
                        d,
                    ) by {
                    assert(seen0.contains(d) <==> exists|a: int|
                        0 <= a < i && lacks_input(nodes, store@, existing@, (#[trigger] l[a]).0, d));
                    if lacks_input(nodes, store@, existing@, x, d) {
                        let b = strmap::key_index(il, d);
                        assert(il[b].0 == d);
                        assert(l[i as int].0 == x);
                    }
                }
            }
        }
        proof {
            assert forall|d: Seq<char>| #[trigger] out.deep_view().contains(d) <==> exists|
                x: Seq<char>,
            | #[trigger] lacks_input(nodes, store@, existing@, x, d) by {
                assert(seen@.contains(d) <==> out.deep_view().contains(d));
                if exists|x: Seq<char>| #[trigger] lacks_input(nodes, store@, existing@, x, d) {
                    let x = choose|x: Seq<char>| #[trigger]
                        lacks_input(nodes, store@, existing@, x, d);
                    let a = strmap::key_index(l, x);
                    assert(l[a].0 == x);
                }
            }
        }
        out
    }
}

/// The derivation that the store holds at a path.
pub open spec fn drv_at(store: Map<Seq<char>, FileView>, p: Seq<char>) -> Option<DrvView> {
    match file_at(store, p) {
        Some(FileView::Contents(b)) => match drv::read_drv(b) {
            Ok(d) => Some(d),
            Err(_) => None,
        },
        _ => None,
    }
}

/// The store holds a unit at a path.
pub open spec fn unit_at(
    declared: Set<Seq<char>>,
    store: Map<Seq<char>, FileView>,
    p: Seq<char>,
) -> bool {
    drv_at(store, p) matches Some(d) && unit(declared, p, d)
}

/// A trail of units from a root on, each an input of the one before.
pub open spec fn trail(
    roots: Seq<Seq<char>>,
    declared: Set<Seq<char>>,
    store: Map<Seq<char>, FileView>,
    c: Seq<Seq<char>>,
) -> bool {
    &&& c.len() > 0
    &&& roots.contains(c[0])
    &&& forall|i: int| 0 <= i < c.len() ==> unit_at(declared, store, #[trigger] c[i])
    &&& forall|i: int, j: int|
        0 <= i < j < c.len() && j == i + 1 ==> drv_at(
            store,
            #[trigger] c[i],
        )->Some_0.input_derivations.contains_key(#[trigger] c[j])
}

/// A trail leads to a path.
pub open spec fn reachable(
    roots: Seq<Seq<char>>,
    declared: Set<Seq<char>>,
    store: Map<Seq<char>, FileView>,
    p: Seq<char>,
) -> bool {
    exists|c: Seq<Seq<char>>| #[trigger] trail(roots, declared, store, c) && c.last() == p
}

/// A root, or an input of a unit that a trail leads to.
spec fn offered(
    roots: Seq<Seq<char>>,
    declared: Set<Seq<char>>,
    store: Map<Seq<char>, FileView>,
    q: Seq<char>,
) -> bool {
    ||| roots.contains(q)
    ||| exists|u: Seq<char>| #[trigger]
        reachable(roots, declared, store, u) && drv_at(
            store,
            u,
        )->Some_0.input_derivations.contains_key(q)
}

/// A trail goes on to each unit that is an input of its last one.
proof fn trail_goes_on(
    roots: Seq<Seq<char>>,
    declared: Set<Seq<char>>,
    store: Map<Seq<char>, FileView>,
    c: Seq<Seq<char>>,
    q: Seq<char>,
)
    requires
        trail(roots, declared, store, c),
        drv_at(store, c.last())->Some_0.input_derivations.contains_key(q),
        unit_at(declared, store, q),
    ensures
        trail(roots, declared, store, c.push(q)),
{
    let e = c.push(q);
    assert forall|i: int, j: int| 0 <= i < j < e.len() && j == i + 1 implies drv_at(
        store,
        #[trigger] e[i],
    )->Some_0.input_derivations.contains_key(#[trigger] e[j]) by {
        assert(e[i] == c[i]);
        if j < c.len() {
            assert(e[j] == c[j]);
        }
    }
    assert forall|i: int| 0 <= i < e.len() implies unit_at(declared, store, #[trigger] e[i]) by {
        if i < c.len() {
            assert(e[i] == c[i]);
        }
    }
    assert(e[0] == c[0]);
}

proof fn offered_unit_is_reachable(
    roots: Seq<Seq<char>>,
    declared: Set<Seq<char>>,
    store: Map<Seq<char>, FileView>,
    q: Seq<char>,
)
    requires
        offered(roots, declared, store, q),
        unit_at(declared, store, q),
    ensures
        reachable(roots, declared, store, q),
{
    if roots.contains(q) {
        let c = seq![q];
        assert(trail(roots, declared, store, c) && c.last() == q);
    } else {
        let u = choose|u: Seq<char>| #[trigger]
            reachable(roots, declared, store, u) && drv_at(
                store,
                u,
            )->Some_0.input_derivations.contains_key(q);
        let c = choose|c: Seq<Seq<char>>| #[trigger]
            trail(roots, declared, store, c) && c.last() == u;
        trail_goes_on(roots, declared, store, c, q);
        assert(c.push(q).last() == q);
    }
}

/// A parsed derivation has finitely many inputs.
proof fn drv_keys_finite(store: Map<Seq<char>, FileView>, p: Seq<char>)
    requires
        drv_at(store, p) is Some,
    ensures
        drv_at(store, p)->Some_0.input_derivations.dom().finite(),
{
    let b = store[p]->Contents_0;
    drv::inputs_are_collected(b);
    let pairs = choose|pairs: Seq<(Seq<char>, Seq<Seq<char>>)>|
        drv::read_drv(b)->Ok_0.input_derivations == strmap::collected(pairs);
    strmap::collected_is_finite(pairs);
}

/// The listing of a finite map has its keys.
proof fn listed_keys<V>(m: Map<Seq<char>, V>, q: Seq<char>)
    requires
        m.dom().finite(),
    ensures
        strmap::keys_of(strmap::listing(m)).contains(q) <==> m.contains_key(q),
{
    sorting::finite_map_is_listed(m);
    let l = strmap::listing(m);
    let ks = strmap::keys_of(l);
    assert(strmap::as_map(l).contains_key(q) <==> strmap::has_key(l, q));
    if ks.contains(q) {
        let i = choose|i: int| 0 <= i < ks.len() && ks[i] == q;
        assert(l[i].0 == q);
    }
    if strmap::has_key(l, q) {
        let i = strmap::key_index(l, q);
        assert(ks[i] == q);
    }
}

/// What holds of a walk between two steps.
spec fn walk_sound(
    roots: Seq<Seq<char>>,
    declared: Set<Seq<char>>,
    store: Map<Seq<char>, FileView>,
    w: WalkView,
) -> bool {
    &&& forall|p: Seq<char>| #[trigger]
        w.units.contains_key(p) ==> unit_at(declared, store, p) && drv_at(store, p) == Some(
            w.units[p],
        ) && reachable(roots, declared, store, p)
    &&& forall|q: Seq<char>| #[trigger] w.queue.contains(q) ==> offered(roots, declared, store, q)
    &&& forall|p: Seq<char>|
        #![trigger w.visited.contains(p)]
        #![trigger w.units.contains_key(p)]
        w.visited.contains(p) && unit_at(declared, store, p) ==> w.units.contains_key(p)
    &&& forall|q: Seq<char>| #[trigger]
        roots.contains(q) ==> w.visited.contains(q) || w.queue.contains(q)
    &&& forall|p: Seq<char>, q: Seq<char>| #[trigger]
        w.units.contains_key(p) && #[trigger] w.units[p].input_derivations.contains_key(q)
            ==> w.visited.contains(q) || w.queue.contains(q)
}

proof fn walk_step_sound(
    roots: Seq<Seq<char>>,
    declared: Set<Seq<char>>,
    store: Map<Seq<char>, FileView>,
    w: WalkView,
)
    requires
        walk_sound(roots, declared, store, w),
    ensures
        next_path(w) matches Some((p, v)) ==> (looked_at(v, declared, p, file_at(store, p)) matches Ok(
            u,
        ) ==> walk_sound(roots, declared, store, u)),
{
    next_path_is_new(w);
    if let Some((p, v)) = next_path(w) {
        if let Ok(u) = looked_at(v, declared, p, file_at(store, p)) {
            assert(offered(roots, declared, store, p));
            if unit_at(declared, store, p) {
                offered_unit_is_reachable(roots, declared, store, p);
                let d = drv_at(store, p)->Some_0;
                let ks = strmap::keys_of(strmap::listing(d.input_derivations));
                drv_keys_finite(store, p);
                assert(u.queue == v.queue + ks);
                assert forall|q: Seq<char>| #[trigger] u.queue.contains(q) implies offered(
                    roots,
                    declared,
                    store,
                    q,
                ) by {
                    let i = choose|i: int| 0 <= i < u.queue.len() && u.queue[i] == q;
                    if i < v.queue.len() {
                        assert(v.queue[i] == q);
                        assert(v.queue.contains(q));
                        assert(w.queue.contains(q));
                    } else {
                        assert(ks[i - v.queue.len()] == q);
                        listed_keys(d.input_derivations, q);
                        assert(ks.contains(q));
                    }
                }
                assert forall|q: Seq<char>| v.queue.contains(q) implies #[trigger] u.queue.contains(q) by {
                    let i = choose|i: int| 0 <= i < v.queue.len() && v.queue[i] == q;
                    assert(u.queue[i] == q);
                }
                assert forall|a: Seq<char>, q: Seq<char>| #[trigger]
                    u.units.contains_key(a) && #[trigger] u.units[a].input_derivations.contains_key(
                        q,
                    ) implies u.visited.contains(q) || u.queue.contains(q) by {
                    if a == p {
                        listed_keys(d.input_derivations, q);
                        let i = choose|i: int| 0 <= i < ks.len() && ks[i] == q;
                        assert(u.queue[v.queue.len() + i] == q);
                    } else {
                        assert(w.units.contains_key(a));
                        assert(w.units[a].input_derivations.contains_key(q));
                    }
                }
            } else {
                assert(u == v);
            }
        }
    }
}

proof fn walk_sound_to_the_end(
    roots: Seq<Seq<char>>,
    declared: Set<Seq<char>>,
    store: Map<Seq<char>, FileView>,
    w: WalkView,
)
    requires
        store.dom().finite(),
        walk_sound(roots, declared, store, w),
    ensures
        walked(w, declared, store) matches Ok(units) ==> exists|v: WalkView|
            v.units == units && #[trigger] walk_sound(roots, declared, store, v) && next_path(
                v,
            ) is None,
    decreases store.dom().difference(w.visited).len(), w.queue.len(),
{
    next_path_is_new(w);
    if let Some((p, v)) = next_path(w) {
        unvisited_shrink(store.dom(), w.visited, p);
        walk_step_sound(roots, declared, store, w);
        if let Ok(u) = looked_at(v, declared, p, file_at(store, p)) {
            walk_sound_to_the_end(roots, declared, store, u);
        }
    }
}

/// Where nothing is left to look at, a unit that was asked for was found.
proof fn asked_for_is_found(
    roots: Seq<Seq<char>>,
    declared: Set<Seq<char>>,
    store: Map<Seq<char>, FileView>,
    w: WalkView,
    p: Seq<char>,
)
    requires
        walk_sound(roots, declared, store, w),
        next_path(w) is None,
        unit_at(declared, store, p),
        w.visited.contains(p) || w.queue.contains(p),
    ensures
        w.units.contains_key(p),
{
    next_path_is_new(w);
    assert(w.visited.contains(p));
}

/// A trail without its last unit is one.
proof fn trail_begins(
    roots: Seq<Seq<char>>,
    declared: Set<Seq<char>>,
    store: Map<Seq<char>, FileView>,
    c: Seq<Seq<char>>,
)
    requires
        trail(roots, declared, store, c),
        c.len() > 1,
    ensures
        trail(roots, declared, store, c.drop_last()),
{
    let b = c.drop_last();
    assert forall|i: int| 0 <= i < b.len() implies unit_at(declared, store, #[trigger] b[i]) by {
        assert(b[i] == c[i]);
    }
    assert forall|i: int, j: int| 0 <= i < j < b.len() && j == i + 1 implies drv_at(
        store,
        #[trigger] b[i],
    )->Some_0.input_derivations.contains_key(#[trigger] b[j]) by {
        assert(b[i] == c[i] && b[j] == c[j]);
    }
}

proof fn trail_is_walked(
    roots: Seq<Seq<char>>,
    declared: Set<Seq<char>>,
    store: Map<Seq<char>, FileView>,
    w: WalkView,
    c: Seq<Seq<char>>,
)
    requires
        walk_sound(roots, declared, store, w),
        next_path(w) is None,
        trail(roots, declared, store, c),
    ensures
        w.units.contains_key(c.last()),
    decreases c.len(),
{
    let p = c.last();
    assert(unit_at(declared, store, c[c.len() - 1]));
    if c.len() == 1 {
        assert(roots.contains(p));
    } else {
        trail_begins(roots, declared, store, c);
        trail_is_walked(roots, declared, store, w, c.drop_last());
        let u = c[c.len() - 2];
        assert(c.drop_last().last() == u);
        assert(w.units.contains_key(u) && w.units[u].input_derivations.contains_key(p));
    }
    asked_for_is_found(roots, declared, store, w, p);
}

/// The graph holds exactly the units that trails from the roots lead to, each with the derivation
/// that the store holds.
pub proof fn graph_is_what_roots_reach(
    roots: Seq<Seq<char>>,
    declared: Set<Seq<char>>,
    store: Map<Seq<char>, FileView>,
)
    requires
        store.dom().finite(),
    ensures
        walked(walk_start(roots), declared, store) matches Ok(units) ==> {
            &&& forall|p: Seq<char>| #[trigger]
                units.contains_key(p) <==> reachable(roots, declared, store, p)
            &&& forall|p: Seq<char>| #[trigger]
                units.contains_key(p) ==> drv_at(store, p) == Some(units[p])
        },
{
    let w = walk_start(roots);
    assert forall|q: Seq<char>| #[trigger] w.queue.contains(q) implies offered(
        roots,
        declared,
        store,
        q,
    ) by {}
    assert(walk_sound(roots, declared, store, w));
    walk_sound_to_the_end(roots, declared, store, w);
    if let Ok(units) = walked(w, declared, store) {
        let v = choose|v: WalkView|
            v.units == units && #[trigger] walk_sound(roots, declared, store, v) && next_path(
                v,
            ) is None;
        assert forall|p: Seq<char>| reachable(roots, declared, store, p) implies
            #[trigger] units.contains_key(p) by {
            let c = choose|c: Seq<Seq<char>>| #[trigger]
                trail(roots, declared, store, c) && c.last() == p;
            trail_is_walked(roots, declared, store, v, c);
        }
    }
}

/// An input outside the graph is asked for wherever one of its outputs that a unit takes is missing,
/// at whatever position that output is named; and only then.
pub proof fn every_missing_output_is_asked_for(
    nodes: Map<Seq<char>, NodeView>,
    store: Map<Seq<char>, FileView>,
    existing: Set<Seq<char>>,
    x: Seq<char>,
    d: Seq<char>,
    b: Seq<u8>,
    dep: DrvView,
)
    requires
        nodes.contains_key(x),
        !nodes.contains_key(d),
        nodes[x].drv.input_derivations.contains_key(d),
        store.contains_key(d),
        store[d] == FileView::Contents(b),
        drv::read_drv(b) == Ok::<DrvView, Seq<char>>(dep),
    ensures
        lacks_input(nodes, store, existing, x, d) <==> exists|o: Seq<char>| #[trigger]
            nodes[x].drv.input_derivations[d].contains(o) && dep.outputs.contains_key(o)
                && !existing.contains(dep.outputs[o].path),
{
    let outs = nodes[x].drv.input_derivations[d];
    if exists|o: Seq<char>| #[trigger]
        outs.contains(o) && dep.outputs.contains_key(o) && !existing.contains(
            dep.outputs[o].path,
        ) {
        let o = choose|o: Seq<char>| #[trigger]
            outs.contains(o) && dep.outputs.contains_key(o) && !existing.contains(
                dep.outputs[o].path,
            );
        let j = choose|j: int| 0 <= j < outs.len() && outs[j] == o;
        assert(dep.outputs.contains_key(outs[j]));
    }
    if lacks_input(nodes, store, existing, x, d) {
        let j = choose|j: int|
            0 <= j < outs.len() && dep.outputs.contains_key(#[trigger] outs[j])
                && !existing.contains(dep.outputs[outs[j]].path);
        assert(outs.contains(outs[j]));
    }
}

/// The order in which the outputs of an input are named does not count, and one more that is
/// missing always has the input asked for.
pub proof fn named_outputs_are_a_set(
    store: Map<Seq<char>, FileView>,
    existing: Set<Seq<char>>,
    d: Seq<char>,
    a: Seq<Seq<char>>,
    b: Seq<Seq<char>>,
    o: Seq<char>,
    dep: DrvView,
)
    requires
        drv_at(store, d) == Some(dep),
        forall|n: Seq<char>| #[trigger] a.contains(n) <==> b.contains(n),
    ensures
        lacks(store, existing, d, a) == lacks(store, existing, d, b),
        dep.outputs.contains_key(o) && !existing.contains(dep.outputs[o].path) ==> lacks(
            store,
            existing,
            d,
            a.push(o),
        ),
{
    if lacks(store, existing, d, a) {
        let j = choose|j: int|
            0 <= j < a.len() && dep.outputs.contains_key(#[trigger] a[j]) && !existing.contains(
                dep.outputs[a[j]].path,
            );
        assert(a.contains(a[j]));
        let k = choose|k: int| 0 <= k < b.len() && b[k] == a[j];
        assert(dep.outputs.contains_key(b[k]));
    }
    if lacks(store, existing, d, b) {
        let j = choose|j: int|
            0 <= j < b.len() && dep.outputs.contains_key(#[trigger] b[j]) && !existing.contains(
                dep.outputs[b[j]].path,
            );
        assert(b.contains(b[j]));
        assert(a.contains(b[j]));
        let k = choose|k: int| 0 <= k < a.len() && a[k] == b[j];
        assert(dep.outputs.contains_key(a[k]));
    }
    let c = a.push(o);
    assert(c[c.len() - 1] == o);
}

/// What is not a derivation that can be read, and what is in the graph, is not asked for.
pub proof fn nothing_else_is_asked_for(
    nodes: Map<Seq<char>, NodeView>,
    store: Map<Seq<char>, FileView>,
    existing: Set<Seq<char>>,
    x: Seq<char>,
    d: Seq<char>,
)
    ensures
        lacks_input(nodes, store, existing, x, d) ==> !nodes.contains_key(d) && nodes.contains_key(
            x,
        ) && nodes[x].drv.input_derivations.contains_key(d) && store.contains_key(d) && (store[d]
            matches FileView::Contents(b) && drv::read_drv(b) is Ok),
{
}

/// A unit depends on exactly those of its inputs that are units, each once and in ascending order.
pub proof fn dependencies_are_the_inputs_that_are_units(
    units: Map<Seq<char>, DrvView>,
    k: Seq<char>,
    d: Seq<char>,
)
    requires
        units.contains_key(k),
        units[k].input_derivations.dom().finite(),
    ensures
        linked(units).contains_key(k),
        linked(units)[k].drv_path == k,
        linked(units)[k].drv == units[k],
        linked(units)[k].crate_deps.contains(d) <==> units[k].input_derivations.contains_key(d)
            && units.contains_key(d),
        forall|i: int, j: int|
            0 <= i < j < linked(units)[k].crate_deps.len() ==> strmap::str_lt(
                #[trigger] linked(units)[k].crate_deps[i],
                #[trigger] linked(units)[k].crate_deps[j],
            ),
{
    let m = units[k].input_derivations;
    let l = strmap::listing(m);
    sorting::finite_map_is_listed(m);
    keys_within_list(l, units.dom(), d);
    assert(m.contains_key(d) <==> strmap::has_key(l, d));
}

proof fn keys_within_list<V>(l: Seq<(Seq<char>, V)>, dom: Set<Seq<char>>, d: Seq<char>)
    requires
        strmap::ascending(l),
    ensures
        keys_within(l, dom).contains(d) <==> strmap::has_key(l, d) && dom.contains(d),
        forall|i: int, j: int|
            0 <= i < j < keys_within(l, dom).len() ==> strmap::str_lt(
                #[trigger] keys_within(l, dom)[i],
                #[trigger] keys_within(l, dom)[j],
            ),
        forall|i: int|
            0 <= i < keys_within(l, dom).len() ==> strmap::has_key(
                l,
                #[trigger] keys_within(l, dom)[i],
            ),
    decreases l.len(),
{
    if l.len() > 0 {
        let f = l.drop_last();
        let r = keys_within(f, dom);
        keys_within_list(f, dom, d);
        assert(f =~= l.take(l.len() - 1));
        assert(l.take(l.len() as int) =~= l);
        strmap::one_more_key(l, l.len() - 1, d);
        pushed(r, l.last().0, d);
        let k = keys_within(l, dom);
        assert forall|i: int| 0 <= i < k.len() implies strmap::has_key(l, #[trigger] k[i]) by {
            strmap::one_more_key(l, l.len() - 1, k[i]);
            if i < r.len() {
                assert(k[i] == r[i]);
            }
        }
        assert forall|i: int, j: int| 0 <= i < j < k.len() implies strmap::str_lt(
            #[trigger] k[i],
            #[trigger] k[j],
        ) by {
            assert(k[i] == r[i]);
            if j < r.len() {
                assert(k[j] == r[j]);
            } else {
                let a = strmap::key_index(f, r[i]);
                assert(f[a].0 == l[a].0);
                assert(l[l.len() - 1] == l.last());
            }
        }
    } else {
        assert(!strmap::has_key(l, d));
    }
}

/// A file that is not there, or that holds no unit, adds nothing. One that cannot be read or is no
/// derivation ends the walk. That of a unit adds the unit, and all its inputs are looked at in turn.
pub proof fn units_are_walked_on(
    w: WalkView,
    declared: Set<Seq<char>>,
    p: Seq<char>,
    b: Seq<u8>,
    e: Seq<char>,
    i: Seq<char>,
)
    ensures
        looked_at(w, declared, p, None) == Ok::<WalkView, Seq<char>>(w),
        looked_at(w, declared, p, Some(FileView::Unreadable(e))) is Err,
        drv::read_drv(b) is Err ==> looked_at(w, declared, p, Some(FileView::Contents(b))) is Err,
        drv::read_drv(b) matches Ok(d) ==> {
            let r = looked_at(w, declared, p, Some(FileView::Contents(b)));
            &&& r is Ok
            &&& r->Ok_0.visited == w.visited
            &&& !unit(declared, p, d) ==> r->Ok_0 == w
            &&& unit(declared, p, d) ==> r->Ok_0.units == w.units.insert(p, d)
                && w.queue.is_prefix_of(r->Ok_0.queue)
            &&& unit(declared, p, d) && d.input_derivations.dom().finite() && d.input_derivations.contains_key(
                i,
            ) ==> r->Ok_0.queue.contains(i)
        },
{
    if let Ok(d) = drv::read_drv(b) {
        if unit(declared, p, d) {
            let l = strmap::listing(d.input_derivations);
            let ks = strmap::keys_of(l);
            let q = w.queue + ks;
            assert(q.subrange(0, w.queue.len() as int) =~= w.queue);
            if d.input_derivations.dom().finite() && d.input_derivations.contains_key(i) {
                sorting::finite_map_is_listed(d.input_derivations);
                assert(strmap::has_key(l, i));
                let j = choose|j: int| 0 <= j < l.len() && l[j].0 == i;
                assert(ks[j] == i);
                assert(q[w.queue.len() + j] == i);
            }
        }
    }
}

/// Paths are looked at in the order in which they were found, each once.
pub proof fn paths_are_looked_at_once(w: WalkView)
    ensures
        next_path(w) is None <==> (forall|i: int|
            0 <= i < w.queue.len() ==> w.visited.contains(#[trigger] w.queue[i])),
        next_path(w) matches Some((p, n)) ==> {
            &&& !w.visited.contains(p)
            &&& w.queue.contains(p)
            &&& n.visited == w.visited.insert(p)
            &&& n.units == w.units
            &&& exists|i: int|
                #![trigger w.queue[i]]
                0 <= i < w.queue.len() && w.queue[i] == p && n.queue == w.queue.skip(i + 1) && (
                forall|j: int| 0 <= j < i ==> w.visited.contains(#[trigger] w.queue[j]))
        },
    decreases w.queue.len(),
{
    if w.queue.len() > 0 {
        if w.visited.contains(w.queue[0]) {
            let r = WalkView { queue: w.queue.drop_first(), ..w };
            paths_are_looked_at_once(r);
            assert forall|i: int| 0 <= i < r.queue.len() implies #[trigger] r.queue[i]
                == w.queue[i + 1] by {}
            if next_path(w) is None {
                assert forall|i: int| 0 <= i < w.queue.len() implies w.visited.contains(
                    #[trigger] w.queue[i],
                ) by {
                    if i > 0 {
                        assert(w.queue[i] == r.queue[i - 1]);
                    }
                }
            } else {
                let (p, n) = next_path(w)->Some_0;
                let i = choose|i: int|
                    #![trigger r.queue[i]]
                    0 <= i < r.queue.len() && r.queue[i] == p && n.queue == r.queue.skip(i + 1) && (
                    forall|j: int| 0 <= j < i ==> r.visited.contains(#[trigger] r.queue[j]));
                assert(w.queue[i + 1] == p);
                assert(r.queue.skip(i + 1) =~= w.queue.skip(i + 2));
                assert forall|j: int| 0 <= j < i + 1 implies w.visited.contains(
                    #[trigger] w.queue[j],
                ) by {
                    if j > 0 {
                        assert(w.queue[j] == r.queue[j - 1]);
                    }
                }
            }
        } else {
            assert(w.queue.drop_first() =~= w.queue.skip(1));
            assert(w.queue.contains(w.queue[0]));
        }
    }
}

/// In order, every node stands behind all that it depends on, and none stands twice.
pub proof fn dependencies_come_first(
    nodes: Map<Seq<char>, NodeView>,
    o: Seq<Seq<char>>,
    x: Seq<char>,
    d: Seq<char>,
)
    requires
        in_order(nodes, o),
        o.contains(x),
    ensures
        nodes.contains_key(x),
        nodes.contains_key(d) && nodes[x].crate_deps.contains(d) ==> o.contains(d) && o.index_of(d)
            < o.index_of(x),
        o.no_duplicates(),
{
    let j = o.index_of(x);
    if nodes.contains_key(d) && nodes[x].crate_deps.contains(d) {
        assert(needs(nodes, o[j], d));
        assert(o.take(j).contains(d));
        let i = o.take(j).index_of(d);
        assert(o[i] == d);
        assert(o.contains(d));
        let k = o.index_of(d);
        assert(o[k] == o[i]);
    }
}

/// A node that depends on itself makes a cycle, and so do two that depend on each other; where nothing
/// depends on anything there is none.
pub proof fn rounds_are_cycles(nodes: Map<Seq<char>, NodeView>, x: Seq<char>, d: Seq<char>)
    requires
        nodes.contains_key(x),
        nodes.contains_key(d),
    ensures
        nodes[x].crate_deps.contains(x) ==> cyclic(nodes),
        nodes[x].crate_deps.contains(d) && nodes[d].crate_deps.contains(x) ==> cyclic(nodes),
        (forall|y: Seq<char>| #[trigger]
            nodes.contains_key(y) ==> nodes[y].crate_deps.len() == 0) ==> !cyclic(nodes),
{
    if nodes[x].crate_deps.contains(x) {
        let c = seq![x];
        assert(needs(nodes, c.last(), c[0]));
        assert(is_round(nodes, c));
    }
    if nodes[x].crate_deps.contains(d) && nodes[d].crate_deps.contains(x) {
        let c = seq![x, d];
        assert(needs(nodes, c[0], c[1]));
        assert(needs(nodes, c.last(), c[0]));
        assert(is_round(nodes, c));
    }
    if cyclic(nodes) && (forall|y: Seq<char>| #[trigger]
        nodes.contains_key(y) ==> nodes[y].crate_deps.len() == 0) {
        let c = choose|c: Seq<Seq<char>>| is_round(nodes, c);
        assert(needs(nodes, c.last(), c[0]));
        assert(nodes.contains_key(c.last()));
    }
}

} // verus!
