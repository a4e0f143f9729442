//! What an edit of one unit's source moves: the overrides of the units that reach it, and no others.
use crate::digest;
use crate::executor::OverrideView;
use crate::graph;
use crate::graph::{BuildGraph, NodeView};
use crate::overrides;
use crate::overrides::OwnView;
use crate::sorting;
use crate::text;
use vstd::prelude::*;
use vstd::utf8::*;

verus! {

/// Whether a unit reaches another over its dependencies, or is that unit.
pub open spec fn reaches(nodes: Map<Seq<char>, NodeView>, x: Seq<char>, u: Seq<char>) -> bool {
    overrides::is_tracked(nodes, set![u], x)
}

/// The bytes that the effective hash of a unit is the digest of.
pub open spec fn hashed(
    nodes: Map<Seq<char>, NodeView>,
    own: Map<Seq<char>, OwnView>,
    r: Map<Seq<char>, OverrideView>,
    x: Seq<char>,
) -> Seq<u8> {
    overrides::eff_input(
        match overrides::value_at(own, x) {
            Some(o) => Some(o.hash),
            None => None,
        },
        overrides::hashes_of(nodes[x].crate_deps, overrides::source_hashes(r)),
    )
}

/// The own hash of a unit as far as it counts: a unit without one counts as one with an empty one.
spec fn own_text(own: Map<Seq<char>, OwnView>, x: Seq<char>) -> Seq<char> {
    if own.contains_key(x) {
        own[x].hash
    } else {
        Seq::empty()
    }
}

/// The dependencies that are among some units.
spec fn kept(deps: Seq<Seq<char>>, dom: Set<Seq<char>>) -> Seq<Seq<char>>
    decreases deps.len(),
{
    if deps.len() == 0 {
        Seq::empty()
    } else if dom.contains(deps.last()) {
        kept(deps.drop_last(), dom).push(deps.last())
    } else {
        kept(deps.drop_last(), dom)
    }
}

proof fn kept_within(deps: Seq<Seq<char>>, dom: Set<Seq<char>>, i: int)
    requires
        0 <= i < kept(deps, dom).len(),
    ensures
        deps.contains(kept(deps, dom)[i]),
        dom.contains(kept(deps, dom)[i]),
    decreases deps.len(),
{
    let d = deps.drop_last();
    if dom.contains(deps.last()) && i == kept(deps, dom).len() - 1 {
        assert(deps[deps.len() - 1] == deps.last());
    } else {
        kept_within(d, dom, i);
        let k = choose|k: int| 0 <= k < d.len() && d[k] == kept(d, dom)[i];
        assert(deps[k] == d[k]);
    }
}

proof fn kept_all(deps: Seq<Seq<char>>, dom: Set<Seq<char>>, k: int) -> (i: int)
    requires
        0 <= k < deps.len(),
        dom.contains(deps[k]),
    ensures
        0 <= i < kept(deps, dom).len(),
        kept(deps, dom)[i] == deps[k],
    decreases deps.len(),
{
    if k == deps.len() - 1 {
        kept(deps, dom).len() - 1
    } else {
        kept_all(deps.drop_last(), dom, k)
    }
}

proof fn hashes_of_kept(deps: Seq<Seq<char>>, m: Map<Seq<char>, Seq<char>>)
    ensures
        overrides::hashes_of(deps, m) == kept(deps, m.dom()).map_values(|d: Seq<char>| m[d]),
    decreases deps.len(),
{
    if deps.len() > 0 {
        hashes_of_kept(deps.drop_last(), m);
    }
    assert(overrides::hashes_of(deps, m) =~= kept(deps, m.dom()).map_values(|d: Seq<char>| m[d]));
}

/// The sum of some numbers.
spec fn total(v: Seq<nat>) -> nat
    decreases v.len(),
{
    if v.len() == 0 {
        0
    } else {
        total(v.drop_last()) + v.last()
    }
}

proof fn total_without(v: Seq<nat>, j: int)
    requires
        0 <= j < v.len(),
    ensures
        total(v) == total(v.remove(j)) + v[j],
    decreases v.len(),
{
    if j == v.len() - 1 {
        assert(v.remove(j) =~= v.drop_last());
    } else {
        total_without(v.drop_last(), j);
        assert(v.remove(j).drop_last() =~= v.drop_last().remove(j));
        assert(v.remove(j).last() == v.last());
    }
}

/// Two lists of the same texts, with a number for each that the text determines, have the same sum.
proof fn same_texts_same_total(s: Seq<Seq<char>>, t: Seq<Seq<char>>, v: Seq<nat>, w: Seq<nat>)
    requires
        s.to_multiset() == t.to_multiset(),
        s.len() == v.len(),
        t.len() == w.len(),
        forall|i: int, j: int|
            0 <= i < s.len() && 0 <= j < t.len() && #[trigger] s[i] == #[trigger] t[j] ==> v[i]
                == w[j],
    ensures
        total(v) == total(w),
    decreases s.len(),
{
    s.to_multiset_ensures();
    t.to_multiset_ensures();
    assert(s.len() == t.len());
    if s.len() > 0 {
        let x = s.last();
        let n = s.len() - 1;
        assert(s[n] == x);
        assert(s.contains(x));
        assert(s.to_multiset().count(x) > 0);
        assert(t.contains(x));
        let j = choose|j: int| 0 <= j < t.len() && t[j] == x;
        let s1 = s.remove(n);
        let t1 = t.remove(j);
        vstd::seq_lib::to_multiset_remove(s, n);
        vstd::seq_lib::to_multiset_remove(t, j);
        assert(s1.to_multiset() =~= t1.to_multiset());
        assert forall|a: int, b: int|
            0 <= a < s1.len() && 0 <= b < t1.len() && #[trigger] s1[a] == #[trigger] t1[b] implies v.remove(
            n,
        )[a] == w.remove(j)[b] by {
            let c = if b < j { b } else { b + 1 };
            assert(s1[a] == s[a]);
            assert(t1[b] == t[c]);
            assert(s[a] == t[c]);
        }
        same_texts_same_total(s1, t1, v.remove(n), w.remove(j));
        total_without(v, n);
        total_without(w, j);
        assert(s[n] == t[j]);
    } else {
        assert(v =~= w);
    }
}

/// How often an own hash counts below a unit: once for the unit itself if it is its own, and as
/// often as below its dependencies.
spec fn tallied(
    nodes: Map<Seq<char>, NodeView>,
    own: Map<Seq<char>, OwnView>,
    a: Seq<char>,
    m: Map<Seq<char>, nat>,
    x: Seq<char>,
) -> nat {
    (if own_text(own, x) == a { 1nat } else { 0nat }) + below(nodes[x].crate_deps, m)
}

spec fn below(deps: Seq<Seq<char>>, m: Map<Seq<char>, nat>) -> nat {
    total(kept(deps, m.dom()).map_values(|d: Seq<char>| m[d]))
}

proof fn later_does_not_count(
    deps: Seq<Seq<char>>,
    m: Map<Seq<char>, nat>,
    y: Seq<char>,
    v: nat,
)
    requires
        !deps.contains(y),
    ensures
        below(deps, m.insert(y, v)) == below(deps, m),
{
    later_is_not_kept(deps, m.dom(), y);
    let k = kept(deps, m.dom());
    let n = m.insert(y, v);
    assert(n.dom() =~= m.dom().insert(y));
    assert forall|i: int| 0 <= i < k.len() implies n[k[i]] == m[k[i]] by {
        kept_within(deps, m.dom(), i);
    }
    assert(k.map_values(|d: Seq<char>| n[d]) =~= k.map_values(|d: Seq<char>| m[d]));
}

proof fn later_is_not_kept(deps: Seq<Seq<char>>, dom: Set<Seq<char>>, y: Seq<char>)
    requires
        !deps.contains(y),
    ensures
        kept(deps, dom.insert(y)) == kept(deps, dom),
    decreases deps.len(),
{
    if deps.len() > 0 {
        let d = deps.drop_last();
        assert(!d.contains(y)) by {
            if d.contains(y) {
                let k = choose|k: int| 0 <= k < d.len() && d[k] == y;
                assert(deps[k] == y);
            }
        }
        assert(deps[deps.len() - 1] == deps.last());
        later_is_not_kept(d, dom, y);
    }
}

/// The tallies of the units in `dom` among the first `i` of the order.
proof fn tally(
    nodes: Map<Seq<char>, NodeView>,
    order: Seq<Seq<char>>,
    own: Map<Seq<char>, OwnView>,
    a: Seq<char>,
    dom: Set<Seq<char>>,
    i: int,
) -> (m: Map<Seq<char>, nat>)
    requires
        graph::in_order(nodes, order),
        0 <= i <= order.len(),
    ensures
        forall|x: Seq<char>| #[trigger]
            m.contains_key(x) <==> dom.contains(x) && order.take(i).contains(x),
        forall|x: Seq<char>| #[trigger]
            m.contains_key(x) ==> m[x] == tallied(nodes, own, a, m, x),
    decreases i,
{
    if i == 0 {
        Map::empty()
    } else {
        let m = tally(nodes, order, own, a, dom, i - 1);
        let y = order[i - 1];
        let t = order.take(i - 1);
        assert(order.take(i) =~= t.push(y));
        if dom.contains(y) {
            let v = tallied(nodes, own, a, m, y);
            let n = m.insert(y, v);
            assert forall|x: Seq<char>| #[trigger] n.contains_key(x) implies n[x] == tallied(
                nodes,
                own,
                a,
                n,
                x,
            ) by {
                if x != y {
                    assert(m.contains_key(x));
                }
                overrides::self_or_later(nodes, order, i - 1, x);
                later_does_not_count(nodes[x].crate_deps, m, y, v);
            }
            assert forall|x: Seq<char>| #[trigger] n.contains_key(x) <==> dom.contains(x)
                && order.take(i).contains(x) by {
                graph::pushed(t, y, x);
                assert(m.contains_key(x) <==> dom.contains(x) && t.contains(x));
            }
            n
        } else {
            assert forall|x: Seq<char>| #[trigger] m.contains_key(x) <==> dom.contains(x)
                && order.take(i).contains(x) by {
                graph::pushed(t, y, x);
            }
            m
        }
    }
}

proof fn no_more_below(deps: Seq<Seq<char>>, m: Map<Seq<char>, nat>, n: Map<Seq<char>, nat>)
    requires
        m.dom() == n.dom(),
        forall|k: int|
            0 <= k < deps.len() && m.contains_key(#[trigger] deps[k]) ==> n[deps[k]] <= m[deps[k]],
    ensures
        below(deps, n) <= below(deps, m),
        (exists|k: int|
            0 <= k < deps.len() && m.contains_key(#[trigger] deps[k]) && n[deps[k]] < m[deps[k]])
            ==> below(deps, n) < below(deps, m),
    decreases deps.len(),
{
    let f = |d: Seq<char>| m[d];
    let g = |d: Seq<char>| n[d];
    if deps.len() > 0 {
        let e = deps.drop_last();
        let l = deps.last();
        assert(deps[deps.len() - 1] == l);
        assert forall|k: int| 0 <= k < e.len() && m.contains_key(#[trigger] e[k]) implies n[e[k]]
            <= m[e[k]] by {
            assert(e[k] == deps[k]);
        }
        no_more_below(e, m, n);
        if m.contains_key(l) {
            let k = kept(e, m.dom());
            assert(k.push(l).map_values(f).drop_last() =~= k.map_values(f));
            assert(k.push(l).map_values(g).drop_last() =~= k.map_values(g));
        }
        if exists|k: int|
            0 <= k < deps.len() && m.contains_key(#[trigger] deps[k]) && n[deps[k]] < m[deps[k]] {
            let k = choose|k: int|
                0 <= k < deps.len() && m.contains_key(#[trigger] deps[k]) && n[deps[k]]
                    < m[deps[k]];
            if k < e.len() {
                assert(e[k] == deps[k]);
            }
        }
    }
}

/// Two cascades over one graph whose own hashes differ for one unit alone.
pub open spec fn one_edit(
    nodes: Map<Seq<char>, NodeView>,
    own: Map<Seq<char>, OwnView>,
    after: Map<Seq<char>, OwnView>,
    u: Seq<char>,
    r: Map<Seq<char>, OverrideView>,
    s: Map<Seq<char>, OverrideView>,
) -> bool {
    &&& nodes.contains_key(u)
    &&& own.contains_key(u)
    &&& after.contains_key(u)
    &&& after == own.insert(u, after[u])
    &&& after[u].src_dir == own[u].src_dir
    &&& after[u].hash != own[u].hash
    &&& overrides::is_cascade(nodes, own, r)
    &&& overrides::is_cascade(nodes, after, s)
}

/// No two digests in two cascades collide: where they are the same, so is what they are of.
pub open spec fn no_collision(
    nodes: Map<Seq<char>, NodeView>,
    own: Map<Seq<char>, OwnView>,
    after: Map<Seq<char>, OwnView>,
    r: Map<Seq<char>, OverrideView>,
    s: Map<Seq<char>, OverrideView>,
) -> bool {
    forall|x: Seq<char>, y: Seq<char>|
        #![trigger r.contains_key(x), s.contains_key(y)]
        r.contains_key(x) && s.contains_key(y) && r[x].source_hash == s[y].source_hash ==> hashed(
            nodes,
            own,
            r,
            x,
        ) == hashed(nodes, after, s, y)
}

/// An own hash ends as what an effective hash is the digest of ends behind it: in a zero byte and an
/// effective hash. The hash of a directory never does: it holds digits alone.
pub open spec fn ends_in_hash(h: Seq<char>, r: Map<Seq<char>, OverrideView>) -> bool {
    exists|x: Seq<char>| #[trigger]
        r.contains_key(x) && (seq![0u8] + encode_utf8(r[x].source_hash)).is_suffix_of(
            encode_utf8(h),
        )
}

/// No own hash of either cascade ends in an effective hash of the other.
pub open spec fn told_apart(
    own: Map<Seq<char>, OwnView>,
    after: Map<Seq<char>, OwnView>,
    r: Map<Seq<char>, OverrideView>,
    s: Map<Seq<char>, OverrideView>,
) -> bool {
    &&& forall|d: Seq<char>| #[trigger] own.contains_key(d) ==> !ends_in_hash(own[d].hash, s)
    &&& forall|d: Seq<char>| #[trigger] after.contains_key(d) ==> !ends_in_hash(after[d].hash, r)
}

/// Own hashes without a zero byte, as digests are, are told apart.
pub proof fn digests_are_told_apart(
    own: Map<Seq<char>, OwnView>,
    after: Map<Seq<char>, OwnView>,
    r: Map<Seq<char>, OverrideView>,
    s: Map<Seq<char>, OverrideView>,
)
    requires
        forall|d: Seq<char>| #[trigger]
            own.contains_key(d) ==> !encode_utf8(own[d].hash).contains(0),
        forall|d: Seq<char>| #[trigger]
            after.contains_key(d) ==> !encode_utf8(after[d].hash).contains(0),
    ensures
        told_apart(own, after, r, s),
{
    assert forall|d: Seq<char>| #[trigger] own.contains_key(d) implies !ends_in_hash(
        own[d].hash,
        s,
    ) by {
        if ends_in_hash(own[d].hash, s) {
            zero_in_end(own[d].hash, s);
        }
    }
    assert forall|d: Seq<char>| #[trigger] after.contains_key(d) implies !ends_in_hash(
        after[d].hash,
        r,
    ) by {
        if ends_in_hash(after[d].hash, r) {
            zero_in_end(after[d].hash, r);
        }
    }
}

proof fn zero_in_end(h: Seq<char>, r: Map<Seq<char>, OverrideView>)
    requires
        ends_in_hash(h, r),
    ensures
        encode_utf8(h).contains(0),
{
    let b = encode_utf8(h);
    let x = choose|x: Seq<char>| #[trigger]
        r.contains_key(x) && (seq![0u8] + encode_utf8(r[x].source_hash)).is_suffix_of(b);
    let e = seq![0u8] + encode_utf8(r[x].source_hash);
    assert(b.subrange(b.len() - e.len(), b.len() as int)[0] == e[0]);
    assert(b[b.len() - e.len()] == 0);
}

proof fn reaching_is_tracked(
    nodes: Map<Seq<char>, NodeView>,
    own: Set<Seq<char>>,
    u: Seq<char>,
    x: Seq<char>,
)
    requires
        own.contains(u),
        reaches(nodes, x, u),
    ensures
        overrides::is_tracked(nodes, own, x),
{
    let c = choose|c: Seq<Seq<char>>| #[trigger]
        overrides::leads_to_source(nodes, set![u], c) && c[0] == x;
    assert(c.last() == u);
    assert(overrides::leads_to_source(nodes, own, c));
}

proof fn position(
    nodes: Map<Seq<char>, NodeView>,
    order: Seq<Seq<char>>,
    i: int,
    d: Seq<char>,
) -> (j: int)
    requires
        graph::in_order(nodes, order),
        graph::deps_closed(nodes),
        0 <= i < order.len(),
        nodes[order[i]].crate_deps.contains(d),
    ensures
        0 <= j < i,
        order[j] == d,
{
    assert(nodes.contains_key(order[i]));
    assert(graph::needs(nodes, order[i], d));
    let t = order.take(i);
    let j = choose|j: int| 0 <= j < t.len() && t[j] == d;
    assert(order[j] == d);
    j
}

proof fn fewer_where_it_reaches(
    nodes: Map<Seq<char>, NodeView>,
    order: Seq<Seq<char>>,
    own: Map<Seq<char>, OwnView>,
    after: Map<Seq<char>, OwnView>,
    u: Seq<char>,
    m: Map<Seq<char>, nat>,
    n: Map<Seq<char>, nat>,
    i: int,
)
    requires
        graph::in_order(nodes, order),
        graph::deps_closed(nodes),
        own.contains_key(u),
        after.contains_key(u),
        after == own.insert(u, after[u]),
        after[u].hash != own[u].hash,
        m.dom() == n.dom(),
        forall|x: Seq<char>| #[trigger]
            m.contains_key(x) <==> nodes.contains_key(x) && overrides::is_tracked(
                nodes,
                own.dom(),
                x,
            ),
        forall|x: Seq<char>| #[trigger]
            m.contains_key(x) ==> m[x] == tallied(nodes, own, own[u].hash, m, x),
        forall|x: Seq<char>| #[trigger]
            n.contains_key(x) ==> n[x] == tallied(nodes, after, own[u].hash, n, x),
        0 <= i < order.len(),
        m.contains_key(order[i]),
    ensures
        n[order[i]] <= m[order[i]],
        reaches(nodes, order[i], u) ==> n[order[i]] < m[order[i]],
    decreases i,
{
    let x = order[i];
    let deps = nodes[x].crate_deps;
    assert(n.contains_key(x));
    assert forall|k: int| 0 <= k < deps.len() && m.contains_key(#[trigger] deps[k]) implies n[deps[k]]
        <= m[deps[k]] by {
        assert(deps.contains(deps[k]));
        let j = position(nodes, order, i, deps[k]);
        fewer_where_it_reaches(nodes, order, own, after, u, m, n, j);
    }
    no_more_below(deps, m, n);
    overrides::tracking_cascades(nodes, set![u], x);
    if reaches(nodes, x, u) && x != u {
        let d = choose|d: Seq<char>| #[trigger]
            deps.contains(d) && overrides::is_tracked(nodes, set![u], d);
        let k = choose|k: int| 0 <= k < deps.len() && deps[k] == d;
        let j = position(nodes, order, i, d);
        reaching_is_tracked(nodes, own.dom(), u, d);
        assert(nodes.contains_key(order[j]));
        assert(m.contains_key(d));
        fewer_where_it_reaches(nodes, order, own, after, u, m, n, j);
        assert(m.contains_key(deps[k]) && n[deps[k]] < m[deps[k]]);
    }
}

proof fn hex_is_one_byte_each(h: Seq<char>)
    requires
        digest::hex_text(h),
    ensures
        encode_utf8(h).len() == h.len(),
{
    assert(is_ascii_chars(h)) by {
        assert forall|i: int| 0 <= i < h.len() implies '\0' <= #[trigger] h[i] <= '\u{7F}' by {
            assert(digest::hex_digit(h[i]));
        }
    }
    is_ascii_chars_encode_utf8(h);
}

/// The own part and the hashes behind it are determined where the own part ends in no such hash.
proof fn hashes_are_told_apart(p: Seq<u8>, a: Seq<Seq<char>>, q: Seq<u8>, b: Seq<Seq<char>>)
    requires
        p + overrides::zero_led(a) == q + overrides::zero_led(b),
        forall|i: int| 0 <= i < a.len() ==> encode_utf8(#[trigger] a[i]).len() == 32,
        forall|i: int| 0 <= i < b.len() ==> encode_utf8(#[trigger] b[i]).len() == 32,
        forall|i: int|
            0 <= i < a.len() ==> !(seq![0u8] + encode_utf8(#[trigger] a[i])).is_suffix_of(q),
        forall|i: int|
            0 <= i < b.len() ==> !(seq![0u8] + encode_utf8(#[trigger] b[i])).is_suffix_of(p),
    ensures
        p == q,
        a == b,
    decreases a.len() + b.len(),
{
    let s = p + overrides::zero_led(a);
    let t = q + overrides::zero_led(b);
    let n = s.len() as int;
    if a.len() == 0 && b.len() == 0 {
        assert(s =~= p && t =~= q);
        assert(a =~= b);
    } else if a.len() == 0 {
        let x = seq![0u8] + encode_utf8(b[b.len() - 1]);
        assert(s =~= p);
        assert(t =~= q + overrides::zero_led(b.drop_last()) + x);
        assert(p.subrange(n - x.len(), n) =~= x);
        assert(x.is_suffix_of(p));
    } else if b.len() == 0 {
        let x = seq![0u8] + encode_utf8(a[a.len() - 1]);
        assert(t =~= q);
        assert(s =~= p + overrides::zero_led(a.drop_last()) + x);
        assert(q.subrange(n - x.len(), n) =~= x);
        assert(x.is_suffix_of(q));
    } else {
        let x = encode_utf8(a[a.len() - 1]);
        let y = encode_utf8(b[b.len() - 1]);
        let a1 = a.drop_last();
        let b1 = b.drop_last();
        assert(x =~= s.skip(n - 32));
        assert(y =~= t.skip(n - 32));
        text::encoding_is_injective(a.last(), b.last());
        assert(p + overrides::zero_led(a1) =~= s.take(n - 33));
        assert(q + overrides::zero_led(b1) =~= t.take(n - 33));
        hashes_are_told_apart(p, a1, q, b1);
        assert(a =~= a1.push(a.last()));
        assert(b =~= b1.push(b.last()));
    }
}

proof fn hashed_with_text(
    nodes: Map<Seq<char>, NodeView>,
    own: Map<Seq<char>, OwnView>,
    r: Map<Seq<char>, OverrideView>,
    x: Seq<char>,
)
    ensures
        hashed(nodes, own, r, x) == overrides::eff_input(
            Some(own_text(own, x)),
            overrides::hashes_of(nodes[x].crate_deps, overrides::source_hashes(r)),
        ),
{
    assert(encode_utf8(Seq::<char>::empty()) =~= Seq::empty());
}

/// What the dependencies propagate are effective hashes.
proof fn propagated_is_effective(
    nodes: Map<Seq<char>, NodeView>,
    own: Map<Seq<char>, OwnView>,
    r: Map<Seq<char>, OverrideView>,
    deps: Seq<Seq<char>>,
    h: Seq<char>,
) -> (d: Seq<char>)
    requires
        overrides::is_cascade(nodes, own, r),
        sorting::sorted(overrides::hashes_of(deps, overrides::source_hashes(r))).contains(h),
    ensures
        r.contains_key(d),
        r[d].source_hash == h,
        encode_utf8(h).len() == 32,
{
    let m = overrides::source_hashes(r);
    let hs = overrides::hashes_of(deps, m);
    sorting::str_le_is_total();
    hs.lemma_sort_by_ensures(|a: Seq<char>, b: Seq<char>| sorting::str_le(a, b));
    hashes_of_kept(deps, m);
    assert(hs.contains(h));
    let i = choose|i: int| 0 <= i < hs.len() && hs[i] == h;
    kept_within(deps, m.dom(), i);
    let d = kept(deps, m.dom())[i];
    hex_is_one_byte_each(r[d].source_hash);
    d
}

/// Equal effective hashes are of the same own text and of the same hashes of dependencies.
proof fn hash_tells_parts(
    nodes: Map<Seq<char>, NodeView>,
    own: Map<Seq<char>, OwnView>,
    after: Map<Seq<char>, OwnView>,
    r: Map<Seq<char>, OverrideView>,
    s: Map<Seq<char>, OverrideView>,
    x: Seq<char>,
    y: Seq<char>,
)
    requires
        overrides::is_cascade(nodes, own, r),
        overrides::is_cascade(nodes, after, s),
        told_apart(own, after, r, s),
        hashed(nodes, own, r, x) == hashed(nodes, after, s, y),
    ensures
        own_text(own, x) == own_text(after, y),
        overrides::hashes_of(
            nodes[x].crate_deps,
            overrides::source_hashes(r),
        ).to_multiset() == overrides::hashes_of(
            nodes[y].crate_deps,
            overrides::source_hashes(s),
        ).to_multiset(),
{
    let d1 = nodes[x].crate_deps;
    let d2 = nodes[y].crate_deps;
    let s1 = overrides::hashes_of(d1, overrides::source_hashes(r));
    let s2 = overrides::hashes_of(d2, overrides::source_hashes(s));
    let a = sorting::sorted(s1);
    let b = sorting::sorted(s2);
    let t1 = own_text(own, x);
    let t2 = own_text(after, y);
    hashed_with_text(nodes, own, r, x);
    hashed_with_text(nodes, after, s, y);
    assert(encode_utf8(Seq::<char>::empty()) =~= Seq::empty());
    assert forall|i: int| 0 <= i < a.len() implies encode_utf8(#[trigger] a[i]).len() == 32 && !(
    seq![0u8] + encode_utf8(a[i])).is_suffix_of(encode_utf8(t2)) by {
        assert(a.contains(a[i]));
        let d = propagated_is_effective(nodes, own, r, d1, a[i]);
        if after.contains_key(y) {
            assert(!ends_in_hash(after[y].hash, r));
        }
    }
    assert forall|i: int| 0 <= i < b.len() implies encode_utf8(#[trigger] b[i]).len() == 32 && !(
    seq![0u8] + encode_utf8(b[i])).is_suffix_of(encode_utf8(t1)) by {
        assert(b.contains(b[i]));
        let d = propagated_is_effective(nodes, after, s, d2, b[i]);
        if own.contains_key(x) {
            assert(!ends_in_hash(own[x].hash, s));
        }
    }
    hashes_are_told_apart(encode_utf8(t1), a, encode_utf8(t2), b);
    text::encoding_is_injective(t1, t2);
    let le = |a: Seq<char>, b: Seq<char>| sorting::str_le(a, b);
    sorting::str_le_is_total();
    s1.lemma_sort_by_ensures(le);
    s2.lemma_sort_by_ensures(le);
}

proof fn hash_tells_tally(
    nodes: Map<Seq<char>, NodeView>,
    order: Seq<Seq<char>>,
    own: Map<Seq<char>, OwnView>,
    after: Map<Seq<char>, OwnView>,
    u: Seq<char>,
    r: Map<Seq<char>, OverrideView>,
    s: Map<Seq<char>, OverrideView>,
    m: Map<Seq<char>, nat>,
    n: Map<Seq<char>, nat>,
    i: int,
    y: Seq<char>,
)
    requires
        graph::in_order(nodes, order),
        graph::deps_closed(nodes),
        one_edit(nodes, own, after, u, r, s),
        no_collision(nodes, own, after, r, s),
        told_apart(own, after, r, s),
        m.dom() == r.dom(),
        n.dom() == s.dom(),
        forall|x: Seq<char>| #[trigger]
            m.contains_key(x) ==> m[x] == tallied(nodes, own, own[u].hash, m, x),
        forall|x: Seq<char>| #[trigger]
            n.contains_key(x) ==> n[x] == tallied(nodes, after, own[u].hash, n, x),
        0 <= i < order.len(),
        r.contains_key(order[i]),
        s.contains_key(y),
        r[order[i]].source_hash == s[y].source_hash,
    ensures
        m[order[i]] == n[y],
    decreases i,
{
    let x = order[i];
    let h1 = overrides::source_hashes(r);
    let h2 = overrides::source_hashes(s);
    let d1 = nodes[x].crate_deps;
    let d2 = nodes[y].crate_deps;
    let k1 = kept(d1, r.dom());
    let k2 = kept(d2, s.dom());
    let s1 = overrides::hashes_of(d1, h1);
    let s2 = overrides::hashes_of(d2, h2);
    hash_tells_parts(nodes, own, after, r, s, x, y);
    hashes_of_kept(d1, h1);
    hashes_of_kept(d2, h2);
    assert(h1.dom() =~= r.dom());
    assert(h2.dom() =~= s.dom());
    let v = k1.map_values(|d: Seq<char>| m[d]);
    let w = k2.map_values(|d: Seq<char>| n[d]);
    assert forall|a: int, b: int|
        0 <= a < s1.len() && 0 <= b < s2.len() && #[trigger] s1[a] == #[trigger] s2[b] implies v[a]
        == w[b] by {
        kept_within(d1, r.dom(), a);
        kept_within(d2, s.dom(), b);
        let j = position(nodes, order, i, k1[a]);
        assert(s1[a] == r[k1[a]].source_hash);
        assert(s2[b] == s[k2[b]].source_hash);
        hash_tells_tally(nodes, order, own, after, u, r, s, m, n, j, k2[b]);
    }
    same_texts_same_total(s1, s2, v, w);
    assert(m.contains_key(x));
    assert(n.contains_key(y));
}

proof fn same_where_it_does_not_reach(
    nodes: Map<Seq<char>, NodeView>,
    order: Seq<Seq<char>>,
    own: Map<Seq<char>, OwnView>,
    after: Map<Seq<char>, OwnView>,
    u: Seq<char>,
    r: Map<Seq<char>, OverrideView>,
    s: Map<Seq<char>, OverrideView>,
    i: int,
)
    requires
        graph::in_order(nodes, order),
        graph::deps_closed(nodes),
        one_edit(nodes, own, after, u, r, s),
        r.dom() == s.dom(),
        0 <= i < order.len(),
        r.contains_key(order[i]),
        !reaches(nodes, order[i], u),
    ensures
        r[order[i]] == s[order[i]],
    decreases i,
{
    let x = order[i];
    let h1 = overrides::source_hashes(r);
    let h2 = overrides::source_hashes(s);
    let deps = nodes[x].crate_deps;
    assert(nodes.contains_key(x));
    overrides::tracking_cascades(nodes, set![u], x);
    assert(x != u);
    assert forall|k: int| 0 <= k < deps.len() implies overrides::value_at(h1, #[trigger] deps[k])
        == overrides::value_at(h2, deps[k]) by {
        let d = deps[k];
        assert(deps.contains(d));
        assert(r.contains_key(d) <==> s.contains_key(d));
        if r.contains_key(d) {
            let j = position(nodes, order, i, d);
            assert(!overrides::is_tracked(nodes, set![u], d));
            same_where_it_does_not_reach(nodes, order, own, after, u, r, s, j);
        }
    }
    overrides::unchanged_outputs_keep_the_hash(overrides::value_at(own, x), deps, h1, h2);
    assert(overrides::value_at(after, x) == overrides::value_at(own, x));
    assert(s.contains_key(x));
}

/// A unit stands before all that reach it.
proof fn reached_is_before(
    nodes: Map<Seq<char>, NodeView>,
    order: Seq<Seq<char>>,
    u: Seq<char>,
    i: int,
) -> (j: int)
    requires
        graph::in_order(nodes, order),
        graph::deps_closed(nodes),
        0 <= i < order.len(),
        reaches(nodes, order[i], u),
    ensures
        0 <= j <= i,
        order[j] == u,
    decreases i,
{
    let x = order[i];
    if x == u {
        i
    } else {
        assert(nodes.contains_key(x));
        overrides::tracking_cascades(nodes, set![u], x);
        let d = choose|d: Seq<char>| #[trigger]
            nodes[x].crate_deps.contains(d) && overrides::is_tracked(nodes, set![u], d);
        let k = position(nodes, order, i, d);
        reached_is_before(nodes, order, u, k)
    }
}

/// The edited unit itself moves.
proof fn edited_moves(
    nodes: Map<Seq<char>, NodeView>,
    order: Seq<Seq<char>>,
    own: Map<Seq<char>, OwnView>,
    after: Map<Seq<char>, OwnView>,
    u: Seq<char>,
    r: Map<Seq<char>, OverrideView>,
    s: Map<Seq<char>, OverrideView>,
    i: int,
)
    requires
        graph::in_order(nodes, order),
        graph::deps_closed(nodes),
        one_edit(nodes, own, after, u, r, s),
        no_collision(nodes, own, after, r, s),
        r.dom() == s.dom(),
        r.contains_key(u),
        0 <= i < order.len(),
        order[i] == u,
    ensures
        r[u].source_hash != s[u].source_hash,
{
    let h1 = overrides::source_hashes(r);
    let h2 = overrides::source_hashes(s);
    let deps = nodes[u].crate_deps;
    let k = kept(deps, r.dom());
    assert(h1.dom() =~= r.dom() && h2.dom() =~= r.dom());
    hashes_of_kept(deps, h1);
    hashes_of_kept(deps, h2);
    assert forall|a: int| 0 <= a < k.len() implies h1[#[trigger] k[a]] == h2[k[a]] by {
        kept_within(deps, r.dom(), a);
        let j = position(nodes, order, i, k[a]);
        if reaches(nodes, k[a], u) {
            let e = reached_is_before(nodes, order, u, j);
            assert(order[e] == order[i]);
        }
        same_where_it_does_not_reach(nodes, order, own, after, u, r, s, j);
    }
    assert(overrides::hashes_of(deps, h1) =~= overrides::hashes_of(deps, h2));
    if r[u].source_hash == s[u].source_hash {
        assert(s.contains_key(u));
        let z = overrides::zero_led(sorting::sorted(overrides::hashes_of(deps, h1)));
        let a = encode_utf8(own[u].hash);
        let b = encode_utf8(after[u].hash);
        assert(a + z == b + z);
        assert((a + z).len() == (b + z).len());
        assert(a =~= (a + z).take(a.len() as int));
        assert(b =~= (b + z).take(a.len() as int));
        text::encoding_is_injective(own[u].hash, after[u].hash);
    }
}

/// An edit of one unit's own source moves the effective hash of that unit, and of no unit that does
/// not reach it, as long as digests do not collide. The units with an override and the directories
/// of their sources stay. Every unit that reaches the edited one moves too, as long as no own hash
/// ends in an effective hash: own hashes that spell out each other's effective hashes could trade
/// places, so that a unit which depends on both would stay.
pub proof fn edits_move_what_reaches_them(
    g: &BuildGraph,
    own: Map<Seq<char>, OwnView>,
    after: Map<Seq<char>, OwnView>,
    u: Seq<char>,
    r: Map<Seq<char>, OverrideView>,
    s: Map<Seq<char>, OverrideView>,
)
    requires
        g.wf(),
        one_edit(g.nodes@, own, after, u, r, s),
        no_collision(g.nodes@, own, after, r, s),
    ensures
        r.dom() == s.dom(),
        r.contains_key(u),
        s[u].source_hash != r[u].source_hash,
        forall|x: Seq<char>| #[trigger] r.contains_key(x) ==> s[x].src_path == r[x].src_path,
        forall|x: Seq<char>| #[trigger]
            r.contains_key(x) && !reaches(g.nodes@, x, u) ==> s[x].source_hash == r[x].source_hash,
        told_apart(own, after, r, s) ==> forall|x: Seq<char>| #[trigger]
            r.contains_key(x) && reaches(g.nodes@, x, u) ==> s[x].source_hash != r[x].source_hash,
{
    let nodes = g.nodes@;
    let order = g.topo_order.deep_view();
    let len = order.len() as int;
    let a = own[u].hash;
    assert(after.dom() =~= own.dom());
    assert(r.dom() =~= s.dom()) by {
        assert forall|x: Seq<char>| r.contains_key(x) <==> s.contains_key(x) by {}
    }
    overrides::tracking_cascades(nodes, own.dom(), u);
    let m = tally(nodes, order, own, a, r.dom(), len);
    let n = tally(nodes, order, after, a, r.dom(), len);
    assert(order.take(len) =~= order);
    assert forall|x: Seq<char>| r.contains_key(x) implies order.contains(x) by {
        assert(nodes.contains_key(x));
        assert(order.to_set().contains(x));
    }
    assert(m.dom() =~= r.dom()) by {
        assert forall|x: Seq<char>| m.contains_key(x) <==> r.contains_key(x) by {}
    }
    assert(n.dom() =~= r.dom()) by {
        assert forall|x: Seq<char>| n.contains_key(x) <==> r.contains_key(x) by {}
    }
    assert forall|x: Seq<char>| #[trigger] m.contains_key(x) <==> nodes.contains_key(x)
        && overrides::is_tracked(nodes, own.dom(), x) by {
        assert(m.contains_key(x) <==> r.contains_key(x));
    }
    assert forall|x: Seq<char>| #[trigger] r.contains_key(x) implies {
        &&& s[x].src_path == r[x].src_path
        &&& !reaches(nodes, x, u) ==> s[x].source_hash == r[x].source_hash
        &&& told_apart(own, after, r, s) && reaches(nodes, x, u) ==> s[x].source_hash
            != r[x].source_hash
    } by {
        assert(order.contains(x));
        let i = choose|i: int| 0 <= i < order.len() && order[i] == x;
        assert(s.contains_key(x));
        assert(m.contains_key(x));
        if reaches(nodes, x, u) {
            fewer_where_it_reaches(nodes, order, own, after, u, m, n, i);
            if told_apart(own, after, r, s) && s[x].source_hash == r[x].source_hash {
                hash_tells_tally(nodes, order, own, after, u, r, s, m, n, i, x);
            }
        } else {
            same_where_it_does_not_reach(nodes, order, own, after, u, r, s, i);
        }
    }
    assert(order.contains(u));
    let i = choose|i: int| 0 <= i < order.len() && order[i] == u;
    edited_moves(nodes, order, own, after, u, r, s, i);
}

} // verus!
