//! Topological order of a graph whose nodes are numbered.
use crate::counts;
use vstd::prelude::*;

verus! {

/// Every dependency is a node.
pub open spec fn closed_graph(deps: Seq<Seq<usize>>) -> bool {
    forall|x: int, j: int|
        0 <= x < deps.len() && 0 <= j < deps[x].len() ==> (#[trigger] deps[x][j]) < deps.len()
}

/// Node `x` depends on node `d`.
pub open spec fn depends(deps: Seq<Seq<usize>>, x: usize, d: usize) -> bool {
    x < deps.len() && deps[x as int].contains(d)
}

/// Nodes, none twice, each behind all its dependencies.
pub open spec fn in_sequence(deps: Seq<Seq<usize>>, o: Seq<usize>) -> bool {
    &&& o.no_duplicates()
    &&& forall|k: int| 0 <= k < o.len() ==> (#[trigger] o[k]) < deps.len()
    &&& forall|k: int, d: usize|
        0 <= k < o.len() && #[trigger] depends(deps, o[k], d) ==> o.take(k).contains(d)
}

/// Every node that is left out depends on another that is left out.
pub open spec fn exhausted(deps: Seq<Seq<usize>>, o: Seq<usize>) -> bool {
    forall|x: usize|
        x < deps.len() && !(#[trigger] o.contains(x)) ==> exists|d: usize| #[trigger]
            depends(deps, x, d) && !o.contains(d)
}

/// A round of nodes, each of which depends on the next.
pub open spec fn is_cycle(deps: Seq<Seq<usize>>, c: Seq<usize>) -> bool {
    &&& c.len() > 0
    &&& forall|i: int| 0 <= i < c.len() - 1 ==> #[trigger] depends(deps, c[i], c[i + 1])
    &&& depends(deps, c.last(), c[0])
}

/// What comes in sequence is in every exhausted list.
pub proof fn sequence_within(deps: Seq<Seq<usize>>, a: Seq<usize>, b: Seq<usize>, k: int)
    requires
        in_sequence(deps, a),
        exhausted(deps, b),
        0 <= k <= a.len(),
    ensures
        forall|i: int| 0 <= i < k ==> b.contains(#[trigger] a[i]),
    decreases k,
{
    if k > 0 {
        sequence_within(deps, a, b, k - 1);
        let x = a[k - 1];
        if !b.contains(x) {
            let d = choose|d: usize| #[trigger] depends(deps, x, d) && !b.contains(d);
            assert(a.take(k - 1).contains(d));
            let t = a.take(k - 1);
            let i = choose|i: int| 0 <= i < t.len() && t[i] == d;
            assert(a[i] == d);
        }
    }
}

/// Two exhausted sequences hold the same nodes: how far an order can go does not depend on the
/// choices made.
pub proof fn sequence_is_determined(deps: Seq<Seq<usize>>, a: Seq<usize>, b: Seq<usize>)
    requires
        in_sequence(deps, a),
        exhausted(deps, a),
        in_sequence(deps, b),
        exhausted(deps, b),
    ensures
        a.to_set() == b.to_set(),
        a.len() == b.len(),
{
    sequence_within(deps, a, b, a.len() as int);
    sequence_within(deps, b, a, b.len() as int);
    assert(a.to_set() =~= b.to_set());
    a.unique_seq_to_set();
    b.unique_seq_to_set();
}

/// The nodes of a cycle are in no sequence.
proof fn cycle_not_in_sequence(deps: Seq<Seq<usize>>, o: Seq<usize>, c: Seq<usize>, k: int)
    requires
        in_sequence(deps, o),
        is_cycle(deps, c),
        0 <= k <= o.len(),
    ensures
        forall|i: int, j: int| 0 <= i < k && 0 <= j < c.len() ==> #[trigger] o[i] != #[trigger] c[j],
    decreases k,
{
    if k > 0 {
        cycle_not_in_sequence(deps, o, c, k - 1);
        assert forall|j: int| 0 <= j < c.len() implies o[k - 1] != #[trigger] c[j] by {
            if o[k - 1] == c[j] {
                let l = if j < c.len() - 1 { j + 1 } else { 0 };
                assert(depends(deps, o[k - 1], c[l]));
                assert(o.take(k - 1).contains(c[l]));
                let t = o.take(k - 1);
                let i = choose|i: int| 0 <= i < t.len() && t[i] == c[l];
                assert(o[i] == c[l]);
            }
        }
    }
}

/// A graph with all nodes in sequence has no cycle.
pub proof fn ordered_graph_has_no_cycle(deps: Seq<Seq<usize>>, o: Seq<usize>, c: Seq<usize>)
    requires
        in_sequence(deps, o),
        forall|x: usize| x < deps.len() ==> #[trigger] o.contains(x),
    ensures
        !is_cycle(deps, c),
{
    if is_cycle(deps, c) {
        cycle_not_in_sequence(deps, o, c, o.len() as int);
        let x = c[0];
        assert(c.len() == 1 ==> depends(deps, c[0], c[0]));
        assert(c.len() > 1 ==> depends(deps, c[0], c[0int + 1]));
        assert(x < deps.len());
        assert(o.contains(x));
    }
}

/// A walk of `n` steps along dependencies that are left out.
spec fn descent(deps: Seq<Seq<usize>>, o: Seq<usize>, x: usize, n: nat) -> Seq<usize>
    decreases n,
{
    if n == 0 {
        seq![x]
    } else {
        let s = descent(deps, o, x, (n - 1) as nat);
        s.push(choose|d: usize| #[trigger] depends(deps, s.last(), d) && !o.contains(d))
    }
}

proof fn descent_steps(deps: Seq<Seq<usize>>, o: Seq<usize>, x: usize, n: nat)
    requires
        closed_graph(deps),
        exhausted(deps, o),
        x < deps.len(),
        !o.contains(x),
    ensures
        ({
            let s = descent(deps, o, x, n);
            &&& s.len() == n + 1
            &&& forall|i: int| 0 <= i < s.len() ==> !o.contains(#[trigger] s[i]) && s[i] < deps.len()
            &&& forall|i: int| 0 <= i < s.len() - 1 ==> #[trigger] depends(deps, s[i], s[i + 1])
        }),
    decreases n,
{
    if n > 0 {
        descent_steps(deps, o, x, (n - 1) as nat);
        let s = descent(deps, o, x, (n - 1) as nat);
        let t = descent(deps, o, x, n);
        assert(!o.contains(s[s.len() - 1]));
        let d = choose|d: usize| #[trigger] depends(deps, s.last(), d) && !o.contains(d);
        assert(depends(deps, s.last(), d) && !o.contains(d));
        assert(t == s.push(d));
        let ds = deps[s.last() as int];
        let j = choose|j: int| 0 <= j < ds.len() && ds[j] == d;
        assert(deps[s.last() as int][j] == d);
        assert(d < deps.len());
        assert forall|i: int| 0 <= i < t.len() - 1 implies #[trigger] depends(deps, t[i], t[i + 1]) by {
            if i < s.len() - 1 {
                assert(depends(deps, s[i], s[i + 1]));
            }
        }
    }
}

/// More numbers than there are below the bound repeat one.
proof fn pigeonhole(s: Seq<usize>, n: nat)
    requires
        s.len() > n,
        forall|i: int| 0 <= i < s.len() ==> (#[trigger] s[i]) < n,
    ensures
        exists|i: int, j: int| 0 <= i < j < s.len() && #[trigger] s[i] == #[trigger] s[j],
{
    if s.no_duplicates() {
        s.unique_seq_to_set();
        let all = vstd::set_lib::set_int_range(0, n as int);
        vstd::set_lib::lemma_int_range(0, n as int);
        let img = s.to_set().map(|x: usize| x as int);
        vstd::set_lib::lemma_map_size(s.to_set(), img, |x: usize| x as int);
        assert(img.subset_of(all));
        vstd::set_lib::lemma_len_subset(img, all);
    }
}

/// Where an exhausted sequence leaves a node out, the graph has a cycle.
pub proof fn stuck_graph_has_cycle(deps: Seq<Seq<usize>>, o: Seq<usize>, x: usize)
    requires
        closed_graph(deps),
        exhausted(deps, o),
        x < deps.len(),
        !o.contains(x),
    ensures
        exists|c: Seq<usize>| is_cycle(deps, c),
{
    let n = deps.len();
    descent_steps(deps, o, x, n);
    let s = descent(deps, o, x, n);
    pigeonhole(s, n);
    let (i, j) = choose|i: int, j: int| 0 <= i < j < s.len() && #[trigger] s[i] == #[trigger] s[j];
    let c = s.subrange(i, j);
    assert forall|k: int| 0 <= k < c.len() - 1 implies #[trigger] depends(deps, c[k], c[k + 1]) by {
        assert(depends(deps, s[i + k], s[i + k + 1]));
    }
    assert(depends(deps, s[j - 1], s[j - 1 + 1]));
    assert(is_cycle(deps, c));
}

/// The lists in a vector of vectors.
pub open spec fn lists(v: Seq<Vec<usize>>) -> Seq<Seq<usize>> {
    Seq::new(v.len(), |i: int| v[i]@)
}

/// `rev` lists for each node those that depend on it, as often as they do.
pub open spec fn is_reverse(deps: Seq<Seq<usize>>, rev: Seq<Seq<usize>>) -> bool {
    &&& rev.len() == deps.len()
    &&& closed_graph(rev)
    &&& forall|x: usize, d: usize|
        x < deps.len() && d < deps.len() ==> #[trigger] counts::occurrences(rev[d as int], x)
            == counts::occurrences(deps[x as int], d)
}

/// Each list is in ascending order.
pub open spec fn rows_ascend(rows: Seq<Seq<usize>>) -> bool {
    forall|d: int, i: int, j: int|
        0 <= d < rows.len() && 0 <= i <= j < rows[d].len() ==> #[trigger] rows[d][i]
            <= #[trigger] rows[d][j]
}

/// Lists for each node those that depend on it.
pub fn dependents_of(deps: &Vec<Vec<usize>>) -> (rev: Vec<Vec<usize>>)
    requires
        closed_graph(lists(deps@)),
    ensures
        is_reverse(lists(deps@), lists(rev@)),
        rows_ascend(lists(rev@)),
{
    let n: usize = deps.len();
    let ghost g = lists(deps@);
    let mut rev: Vec<Vec<usize>> = Vec::new();
    for i in 0..n
        invariant
            rev@.len() == i,
            forall|k: int| 0 <= k < i ==> (#[trigger] rev@[k])@ == Seq::<usize>::empty(),
    {
        rev.push(Vec::new());
    }
    for x in 0..n
        invariant
            n == deps@.len(),
            g == lists(deps@),
            closed_graph(g),
            rev@.len() == n,
            forall|d: int, j: int|
                0 <= d < n && 0 <= j < rev@[d]@.len() ==> (#[trigger] rev@[d]@[j]) < x,
            rows_ascend(lists(rev@)),
            forall|y: usize, d: usize|
                y < n && d < n ==> #[trigger] counts::occurrences(rev@[d as int]@, y) == if y < x {
                    counts::occurrences(g[y as int], d)
                } else {
                    0
                },
    {
        let m: usize = deps[x].len();
        for j in 0..m
            invariant
                n == deps@.len(),
                x < n,
                m == deps@[x as int]@.len(),
                g == lists(deps@),
                closed_graph(g),
                rev@.len() == n,
                forall|d: int, j: int|
                    0 <= d < n && 0 <= j < rev@[d]@.len() ==> (#[trigger] rev@[d]@[j]) <= x,
                rows_ascend(lists(rev@)),
                forall|y: usize, d: usize|
                    y < n && d < n ==> #[trigger] counts::occurrences(rev@[d as int]@, y) == if y
                        < x {
                        counts::occurrences(g[y as int], d)
                    } else if y == x {
                        counts::occurrences(g[x as int].take(j as int), d)
                    } else {
                        0
                    },
        {
            let d: usize = deps[x][j];
            assert(g[x as int][j as int] == d);
            let ghost before = rev@;
            rev[d].push(x);
            proof {
                assert(rev@ =~= before.update(d as int, rev@[d as int]));
                assert(rev@[d as int]@ =~= before[d as int]@.push(x));
                let rows = lists(rev@);
                assert forall|e: int, i: int, k: int|
                    0 <= e < rows.len() && 0 <= i <= k < rows[e].len() implies #[trigger] rows[e][i]
                    <= #[trigger] rows[e][k] by {
                    if e != d {
                        assert(lists(before)[e][i] <= lists(before)[e][k]);
                    } else if k < before[e]@.len() {
                        assert(lists(before)[e][i] <= lists(before)[e][k]);
                    } else if i < before[e]@.len() {
                        assert(before[e]@[i] <= x);
                    }
                }
                assert forall|y: usize, e: usize| y < n && e < n implies #[trigger]
                counts::occurrences(rev@[e as int]@, y) == if y < x {
                    counts::occurrences(g[y as int], e)
                } else if y == x {
                    counts::occurrences(g[x as int].take(j + 1), e)
                } else {
                    0
                } by {
                    assert(counts::occurrences(before[e as int]@, y) == if y < x {
                        counts::occurrences(g[y as int], e)
                    } else if y == x {
                        counts::occurrences(g[x as int].take(j as int), e)
                    } else {
                        0
                    });
                    counts::occurrences_step(g[x as int], j as int, e);
                    if e == d {
                        assert(rev@[e as int]@.drop_last() =~= before[e as int]@);
                    } else {
                        assert(rev@[e as int]@ == before[e as int]@);
                    }
                }
            }
        }
        assert(g[x as int].take(m as int) =~= g[x as int]);
    }
    proof {
        let r = lists(rev@);
        assert forall|x: int, j: int| 0 <= x < r.len() && 0 <= j < r[x].len() implies (
        #[trigger] r[x][j]) < r.len() by {
            assert(rev@[x]@[j] < n);
        }
        assert forall|x: usize, d: usize| x < g.len() && d < g.len() implies #[trigger]
        counts::occurrences(r[d as int], x) == counts::occurrences(g[x as int], d) by {
            assert(counts::occurrences(rev@[d as int]@, x) == counts::occurrences(g[x as int], d));
        }
    }
    rev
}

/// Distinct numbers below `n` are at most `n`.
pub proof fn distinct_below(s: Seq<usize>, n: nat)
    requires
        s.no_duplicates(),
        forall|i: int| 0 <= i < s.len() ==> (#[trigger] s[i]) < n,
    ensures
        s.len() <= n,
{
    if s.len() > n {
        pigeonhole(s, n);
    }
}

/// Orders the nodes of a graph by Kahn's algorithm: as many as can stand behind all their
/// dependencies.
pub fn order_of(deps: &Vec<Vec<usize>>) -> (order: Vec<usize>)
    requires
        closed_graph(lists(deps@)),
    ensures
        in_sequence(lists(deps@), order@),
        exhausted(lists(deps@), order@),
{
    let n: usize = deps.len();
    let ghost g = lists(deps@);
    let rev = dependents_of(deps);
    let ghost r = lists(rev@);
    let mut left: Vec<usize> = Vec::new();
    let mut order: Vec<usize> = Vec::new();
    let ghost none = Set::<usize>::empty();
    for x in 0..n
        invariant
            n == deps@.len(),
            g == lists(deps@),
            none == Set::<usize>::empty(),
            left@.len() == x,
            forall|y: int| 0 <= y < x ==> left@[y] == counts::missing(#[trigger] g[y], none),
            order@.no_duplicates(),
            forall|k: int| 0 <= k < order@.len() ==> (#[trigger] order@[k]) < x,
            forall|y: usize| y < x ==> (#[trigger] order@.contains(y) <==> left@[y as int] == 0),
            forall|k: int| 0 <= k < order@.len() ==> g[(#[trigger] order@[k]) as int].len() == 0,
    {
        let m: usize = deps[x].len();
        proof {
            counts::missing_all(g[x as int]);
            if order@.contains(x) {
                let k = choose|k: int| 0 <= k < order@.len() && order@[k] == x;
                assert(order@[k] < x);
            }
        }
        left.push(m);
        let ghost before = order@;
        if m == 0 {
            order.push(x);
        }
        proof {
            assert forall|y: usize| y < x + 1 implies (#[trigger] order@.contains(y) <==> left@[y as int]
                == 0) by {
                if y < x {
                    assert(before.contains(y) <==> left@[y as int] == 0);
                    if before.contains(y) {
                        let k = choose|k: int| 0 <= k < before.len() && before[k] == y;
                        assert(order@[k] == y);
                    }
                    if order@.contains(y) {
                        let k = choose|k: int| 0 <= k < order@.len() && order@[k] == y;
                        assert(before[k] == y);
                    }
                } else if m == 0 {
                    assert(order@[order@.len() - 1] == x);
                }
            }
        }
    }
    let mut head: usize = 0;
    let ghost mut done = Set::<usize>::empty();
    proof {
        assert(order@.take(0).to_set() =~= done);
        assert forall|k: int, d: usize|
            0 <= k < order@.len() && #[trigger] depends(g, order@[k], d) implies order@.take(
            k,
        ).contains(d) by {
            assert(g[order@[k] as int].len() == 0);
        }
    }
    while head < order.len()
        invariant
            n == deps@.len(),
            g == lists(deps@),
            closed_graph(g),
            r == lists(rev@),
            is_reverse(g, r),
            head <= order@.len(),
            done == order@.take(head as int).to_set(),
            left@.len() == n,
            in_sequence(g, order@),
            forall|y: int| 0 <= y < n ==> left@[y] == counts::missing(#[trigger] g[y], done),
            forall|y: usize| y < n ==> (#[trigger] order@.contains(y) <==> left@[y as int] == 0),
        decreases n - head,
    {
        let h: usize = order[head];
        let m: usize = rev[h].len();
        proof {
            distinct_below(order@, n as nat);
            let t = order@.take(head as int);
            if done.contains(h) {
                let k = choose|k: int| 0 <= k < t.len() && t[k] == h;
                assert(order@[k] == order@[head as int]);
            }
            assert(r[h as int].take(0) =~= Seq::empty());
        }
        let mut j: usize = 0;
        while j < m
            invariant
                j <= m,
                n == deps@.len(),
                g == lists(deps@),
                closed_graph(g),
                r == lists(rev@),
                is_reverse(g, r),
                h < n,
                head < order@.len(),
                order@[head as int] == h,
                m == rev@[h as int]@.len(),
                done == order@.take(head as int).to_set(),
                !done.contains(h),
                left@.len() == n,
                in_sequence(g, order@),
                forall|y: usize|
                    y < n ==> left@[y as int] + #[trigger] counts::occurrences(
                        r[h as int].take(j as int),
                        y,
                    ) == counts::missing(g[y as int], done),
                forall|y: usize| y < n ==> (#[trigger] order@.contains(y) <==> left@[y as int] == 0),
            decreases m - j,
        {
            let x: usize = rev[h][j];
            let ghost before = order@;
            let ghost left0 = left@;
            proof {
                assert(r[h as int][j as int] == x);
                counts::occurrences_step(r[h as int], j as int, x);
                counts::occurrences_of_prefix(r[h as int], j + 1, x);
                counts::missing_less(g[x as int], done, h);
                assert(counts::occurrences(r[h as int], x) == counts::occurrences(g[x as int], h));
                assert(left@[x as int] + counts::occurrences(r[h as int].take(j as int), x)
                    == counts::missing(g[x as int], done));
                assert(!(before.contains(x)));
            }
            left[x] = left[x] - 1;
            let zero = left[x] == 0;
            if zero {
                order.push(x);
            }
            proof {
                assert(order@.take(head as int) =~= before.take(head as int));
                assert forall|y: usize| y < n implies left@[y as int]
                    + #[trigger] counts::occurrences(r[h as int].take(j + 1), y) == counts::missing(
                    g[y as int],
                    done,
                ) by {
                    counts::occurrences_step(r[h as int], j as int, y);
                    assert(left0[y as int] + counts::occurrences(r[h as int].take(j as int), y)
                        == counts::missing(g[y as int], done));
                }
                assert forall|y: usize| y < n implies (#[trigger] order@.contains(y)
                    <==> left@[y as int] == 0) by {
                    assert(before.contains(y) <==> left0[y as int] == 0);
                    if before.contains(y) {
                        let k = choose|k: int| 0 <= k < before.len() && before[k] == y;
                        assert(order@[k] == y);
                    }
                    if order@.contains(y) && y != x {
                        let k = choose|k: int| 0 <= k < order@.len() && order@[k] == y;
                        assert(before[k] == y);
                    }
                    if zero {
                        assert(order@[order@.len() - 1] == x);
                    }
                }
                if zero {
                    assert(counts::missing(g[x as int], done.insert(h)) == 0);
                    counts::missing_none(g[x as int], done.insert(h));
                    assert forall|k: int, d: usize|
                        0 <= k < order@.len() && #[trigger] depends(
                            g,
                            order@[k],
                            d,
                        ) implies order@.take(k).contains(d) by {
                        if k < before.len() {
                            assert(depends(g, before[k], d));
                            assert(order@.take(k) =~= before.take(k));
                        } else {
                            let ds = g[x as int];
                            let i = choose|i: int| 0 <= i < ds.len() && ds[i] == d;
                            assert(done.insert(h).contains(ds[i]));
                            assert(order@.take(k) =~= before);
                            if d == h {
                                assert(before[head as int] == d);
                            } else {
                                let t = before.take(head as int);
                                let l = choose|l: int| 0 <= l < t.len() && t[l] == d;
                                assert(before[l] == d);
                            }
                        }
                    }
                    assert(order@.no_duplicates());
                }
            }
            j = j + 1;
        }
        proof {
            assert(r[h as int].take(m as int) =~= r[h as int]);
            let after = done.insert(h);
            assert(order@.take(head + 1).to_set() =~= after) by {
                let t = order@.take(head as int);
                let u = order@.take(head + 1);
                assert(u =~= t.push(h));
                assert forall|a: usize| u.contains(a) <==> after.contains(a) by {
                    if t.contains(a) {
                        let k = choose|k: int| 0 <= k < t.len() && t[k] == a;
                        assert(u[k] == a);
                    }
                    if u.contains(a) && a != h {
                        let k = choose|k: int| 0 <= k < u.len() && u[k] == a;
                        assert(t[k] == a);
                    }
                    assert(u[head as int] == h);
                }
            }
            assert forall|y: int| 0 <= y < n implies left@[y] == counts::missing(
                #[trigger] g[y],
                after,
            ) by {
                counts::missing_less(g[y], done, h);
                assert(left@[y] + counts::occurrences(r[h as int].take(m as int), y as usize)
                    == counts::missing(g[y as usize as int], done));
                assert(counts::occurrences(r[h as int], y as usize) == counts::occurrences(
                    g[y as usize as int],
                    h,
                ));
            }
            done = after;
        }
        head = head + 1;
    }
    proof {
        assert(order@.take(head as int) =~= order@);
        assert forall|x: usize| x < g.len() && !(#[trigger] order@.contains(x)) implies exists|d: usize|
            #[trigger] depends(g, x, d) && !order@.contains(d) by {
            counts::missing_none(g[x as int], done);
            let i = choose|i: int|
                0 <= i < g[x as int].len() && !done.contains(#[trigger] g[x as int][i]);
            let d = g[x as int][i];
            assert(depends(g, x, d) && !order@.contains(d));
        }
    }
    order
}

} // verus!
