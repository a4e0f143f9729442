//! Keys of units whose source is tracked.
//!
//! A unit is tracked if its own source is hashed, or if it depends on a tracked unit. The
//! effective hash of a tracked unit is
//!
//! ```text
//! eff(c) = blake3( own(c)? ‖ sorted(propagated(d) for each tracked d that c depends on) )
//! ```
//!
//! Where `propagated(d)` is the hash of what `d` was built to, a rebuild that gives the same
//! artifact leaves the keys of its dependents as they are.
use crate::digest;
use crate::executor::{OverrideView, SourceOverride};
use crate::graph;
use crate::graph::{BuildGraph, NodeView};
use crate::sorting;
use crate::strmap;
use crate::strmap::{StrMap, StrSet};
use crate::text;
use vstd::prelude::*;
use vstd::utf8::*;

verus! {

/// The hash of a unit's own source, and the directory where that source lives.
pub struct OwnHash {
    pub hash: String,
    pub src_dir: String,
}

/// What an [`OwnHash`] holds.
#[verifier::ext_equal]
pub struct OwnView {
    pub hash: Seq<char>,
    pub src_dir: Seq<char>,
}

impl DeepView for OwnHash {
    type V = OwnView;

    open spec fn deep_view(&self) -> OwnView {
        OwnView { hash: self.hash@, src_dir: self.src_dir@ }
    }
}

/// The value of a key, if there is one.
pub open spec fn value_at<V>(m: Map<Seq<char>, V>, k: Seq<char>) -> Option<V> {
    if m.contains_key(k) {
        Some(m[k])
    } else {
        None
    }
}

/// The propagated hashes of the dependencies that have one.
pub open spec fn hashes_of(
    deps: Seq<Seq<char>>,
    propagated: Map<Seq<char>, Seq<char>>,
) -> Seq<Seq<char>>
    decreases deps.len(),
{
    if deps.len() == 0 {
        Seq::empty()
    } else {
        let rest = hashes_of(deps.drop_last(), propagated);
        if propagated.contains_key(deps.last()) {
            rest.push(propagated[deps.last()])
        } else {
            rest
        }
    }
}

/// The bytes of some hashes, each behind a zero byte.
pub open spec fn zero_led(hashes: Seq<Seq<char>>) -> Seq<u8>
    decreases hashes.len(),
{
    if hashes.len() == 0 {
        Seq::empty()
    } else {
        zero_led(hashes.drop_last()) + seq![0u8] + encode_utf8(hashes.last())
    }
}

/// The bytes that an effective hash is the digest of: the own hash, if there is one, and the
/// hashes of the dependencies in order.
pub open spec fn eff_input(own: Option<Seq<char>>, hashes: Seq<Seq<char>>) -> Seq<u8> {
    (match own {
        Some(h) => encode_utf8(h),
        None => Seq::empty(),
    }) + zero_led(sorting::sorted(hashes))
}

/// The effective hash of a unit.
pub open spec fn eff(
    own: Option<OwnView>,
    deps: Seq<Seq<char>>,
    propagated: Map<Seq<char>, Seq<char>>,
) -> Seq<char> {
    digest::short_hex(
        eff_input(
            match own {
                Some(o) => Some(o.hash),
                None => None,
            },
            hashes_of(deps, propagated),
        ),
        32,
    )
}

/// Computes the effective hash of a unit from its own hash and the hashes that its dependencies
/// propagate. A dependency without a propagated hash does not contribute.
pub fn eff_hash(
    own: Option<&OwnHash>,
    unit_deps: &Vec<String>,
    propagated: &StrMap<String>,
) -> (r: String)
    ensures
        r@ == eff(
            match own {
                Some(o) => Some(o.deep_view()),
                None => None,
            },
            unit_deps.deep_view(),
            propagated@,
        ),
        r@.len() == 32,
        digest::hex_text(r@),
{
    let ghost deps = unit_deps.deep_view();
    let mut hashes: Vec<String> = Vec::new();
    assert(hashes.deep_view() =~= hashes_of(deps.take(0), propagated@));
    for i in 0..unit_deps.len()
        invariant
            deps == unit_deps.deep_view(),
            hashes.deep_view() == hashes_of(deps.take(i as int), propagated@),
    {
        let ghost before = hashes.deep_view();
        assert(deps.take(i + 1).drop_last() =~= deps.take(i as int));
        match propagated.get(unit_deps[i].as_str()) {
            Some(h) => {
                hashes.push(h.clone());
                assert(hashes.deep_view() =~= before.push(h@));
            },
            None => {},
        }
    }
    assert(deps.take(deps.len() as int) =~= deps);
    let ghost all = hashes.deep_view();
    let ordered = sorting::sort(hashes);
    let ghost l = ordered.deep_view();
    let mut h = digest::new_hasher();
    let ghost mut lead = Seq::<u8>::empty();
    match own {
        Some(o) => {
            digest::update(&mut h, o.hash.as_str().as_bytes());
            proof {
                lead = encode_utf8(o.hash@);
            }
        },
        None => {},
    }
    assert(digest::hasher_input(h)->Some_0 =~= lead + zero_led(l.take(0)));
    for i in 0..ordered.len()
        invariant
            l == ordered.deep_view(),
            digest::hasher_input(h) == Some(lead + zero_led(l.take(i as int))),
    {
        digest::update(&mut h, &[0u8]);
        digest::update(&mut h, ordered[i].as_str().as_bytes());
        proof {
            assert(l.take(i + 1).drop_last() =~= l.take(i as int));
            assert(digest::hasher_input(h)->Some_0 =~= lead + zero_led(l.take(i + 1)));
        }
    }
    assert(l.take(l.len() as int) =~= l);
    assert(l == sorting::sorted(hashes_of(deps, propagated@)));
    digest::cut(digest::finish(&h).as_str(), 32)
}

/// The cutoff: only the own hash and the hashes that the dependencies propagate count. Where a
/// dependency is built anew to the same output, the effective hash stays.
pub proof fn unchanged_outputs_keep_the_hash(
    own: Option<OwnView>,
    deps: Seq<Seq<char>>,
    before: Map<Seq<char>, Seq<char>>,
    after: Map<Seq<char>, Seq<char>>,
)
    requires
        forall|i: int|
            0 <= i < deps.len() ==> value_at(before, #[trigger] deps[i]) == value_at(after, deps[i]),
    ensures
        hashes_of(deps, before) == hashes_of(deps, after),
        eff(own, deps, before) == eff(own, deps, after),
    decreases deps.len(),
{
    if deps.len() > 0 {
        let d = deps.drop_last();
        assert forall|i: int| 0 <= i < d.len() implies value_at(before, #[trigger] d[i])
            == value_at(after, d[i]) by {
            assert(d[i] == deps[i]);
        }
        unchanged_outputs_keep_the_hash(own, d, before, after);
        assert(value_at(before, deps[deps.len() - 1]) == value_at(after, deps[deps.len() - 1]));
    }
}

/// A dependency that propagates nothing is transparent, wherever it stands.
pub proof fn untracked_dependency_is_transparent(
    own: Option<OwnView>,
    deps: Seq<Seq<char>>,
    i: int,
    propagated: Map<Seq<char>, Seq<char>>,
)
    requires
        0 <= i < deps.len(),
        !propagated.contains_key(deps[i]),
    ensures
        hashes_of(deps.remove(i), propagated) == hashes_of(deps, propagated),
        eff(own, deps.remove(i), propagated) == eff(own, deps, propagated),
    decreases deps.len(),
{
    if i == deps.len() - 1 {
        assert(deps.remove(i) =~= deps.drop_last());
    } else {
        untracked_dependency_is_transparent(own, deps.drop_last(), i, propagated);
        assert(deps.remove(i).drop_last() =~= deps.drop_last().remove(i));
        assert(deps.remove(i).last() == deps.last());
    }
}

/// The hashes of a list of dependencies that is another's, split in two.
proof fn hashes_of_parts(
    a: Seq<Seq<char>>,
    b: Seq<Seq<char>>,
    propagated: Map<Seq<char>, Seq<char>>,
)
    ensures
        hashes_of(a + b, propagated) == hashes_of(a, propagated) + hashes_of(b, propagated),
    decreases b.len(),
{
    if b.len() == 0 {
        assert(a + b =~= a);
        assert(hashes_of(a, propagated) + hashes_of(b, propagated) =~= hashes_of(a, propagated));
    } else {
        hashes_of_parts(a, b.drop_last(), propagated);
        assert((a + b).drop_last() =~= a + b.drop_last());
        assert((a + b).last() == b.last());
        assert(hashes_of(a + b, propagated) =~= hashes_of(a, propagated) + hashes_of(
            b,
            propagated,
        ));
    }
}

proof fn hashes_of_permuted(
    a: Seq<Seq<char>>,
    b: Seq<Seq<char>>,
    propagated: Map<Seq<char>, Seq<char>>,
)
    requires
        a.to_multiset() == b.to_multiset(),
    ensures
        hashes_of(a, propagated).to_multiset() == hashes_of(b, propagated).to_multiset(),
    decreases a.len(),
{
    a.to_multiset_ensures();
    b.to_multiset_ensures();
    if a.len() > 0 {
        let x = a.last();
        assert(a.contains(x)) by {
            assert(a[a.len() - 1] == x);
        }
        assert(b.to_multiset().count(x) > 0);
        assert(b.contains(x));
        let j = choose|j: int| 0 <= j < b.len() && b[j] == x;
        let c = b.remove(j);
        assert(a.drop_last() =~= a.remove(a.len() - 1));
        assert(a.drop_last().to_multiset() =~= c.to_multiset());
        hashes_of_permuted(a.drop_last(), c, propagated);
        let head = b.take(j);
        let tail = b.skip(j + 1);
        assert(b =~= (head + seq![x]) + tail);
        assert(c =~= head + tail);
        hashes_of_parts(head + seq![x], tail, propagated);
        hashes_of_parts(head, seq![x], propagated);
        hashes_of_parts(head, tail, propagated);
        let hx = hashes_of(seq![x], propagated);
        let one = seq![x];
        assert(hashes_of(one.drop_last(), propagated) =~= Seq::<Seq<char>>::empty());
        assert(one.last() == x);
        let hh = hashes_of(head, propagated);
        let ht = hashes_of(tail, propagated);
        let ha = hashes_of(a.drop_last(), propagated);
        ha.to_multiset_ensures();
        if propagated.contains_key(x) {
            let h = propagated[x];
            assert(hx =~= seq![h]);
            let whole = (hh + hx) + ht;
            assert(whole =~= (hh + ht).insert(hh.len() as int, h));
            vstd::seq_lib::to_multiset_insert(hh + ht, hh.len() as int, h);
            assert(hashes_of(a, propagated) =~= ha.push(h));
        } else {
            assert(hx =~= Seq::<Seq<char>>::empty());
            assert((hh + hx) + ht =~= hh + ht);
            assert(hashes_of(a, propagated) =~= ha);
        }
    } else {
        assert(b.len() == 0);
        assert(a =~= b);
    }
}

/// The order in which the dependencies stand does not count.
pub proof fn dependency_order_does_not_count(
    own: Option<OwnView>,
    a: Seq<Seq<char>>,
    b: Seq<Seq<char>>,
    propagated: Map<Seq<char>, Seq<char>>,
)
    requires
        a.to_multiset() == b.to_multiset(),
    ensures
        eff(own, a, propagated) == eff(own, b, propagated),
{
    hashes_of_permuted(a, b, propagated);
    sorting::sorting_forgets_order(hashes_of(a, propagated), hashes_of(b, propagated));
}

/// The last hash of a list that is led by zero bytes, and the rest, are determined.
proof fn zero_led_is_injective(p: Seq<u8>, a: Seq<Seq<char>>, q: Seq<u8>, b: Seq<Seq<char>>)
    requires
        p + zero_led(a) == q + zero_led(b),
        !p.contains(0),
        !q.contains(0),
        forall|i: int| 0 <= i < a.len() ==> !encode_utf8(#[trigger] a[i]).contains(0),
        forall|i: int| 0 <= i < b.len() ==> !encode_utf8(#[trigger] b[i]).contains(0),
    ensures
        p == q,
        a == b,
    decreases a.len() + b.len(),
{
    let s = p + zero_led(a);
    let t = q + zero_led(b);
    if a.len() == 0 && b.len() == 0 {
        assert(s =~= p && t =~= q);
        assert(a =~= b);
    } else if a.len() == 0 || b.len() == 0 {
        // One side has a zero byte, the other none.
        if a.len() == 0 {
            let x = encode_utf8(b.last());
            let i = t.len() - x.len() - 1;
            assert(t[i] == 0);
            assert(s =~= p);
            assert(p[i] == 0);
        } else {
            let x = encode_utf8(a.last());
            let i = s.len() - x.len() - 1;
            assert(s[i] == 0);
            assert(t =~= q);
            assert(q[i] == 0);
        }
    } else {
        let x = encode_utf8(a.last());
        let y = encode_utf8(b.last());
        let n = s.len() as int;
        assert(a.last() == a[a.len() - 1]);
        assert(b.last() == b[b.len() - 1]);
        assert(s[n - x.len() - 1] == 0);
        assert(t[n - y.len() - 1] == 0);
        if x.len() < y.len() {
            let k = n - x.len() - 1 - (n - y.len());
            assert(y[k] == t[n - x.len() - 1]);
            assert(y.contains(0));
        }
        if y.len() < x.len() {
            let k = n - y.len() - 1 - (n - x.len());
            assert(x[k] == s[n - y.len() - 1]);
            assert(x.contains(0));
        }
        assert(x =~= s.skip(n - x.len()));
        assert(y =~= t.skip(n - y.len()));
        text::encoding_is_injective(a.last(), b.last());
        let a1 = a.drop_last();
        let b1 = b.drop_last();
        assert(p + zero_led(a1) =~= s.take(n - x.len() - 1));
        assert(q + zero_led(b1) =~= t.take(n - y.len() - 1));
        assert forall|i: int| 0 <= i < a1.len() implies !encode_utf8(#[trigger] a1[i]).contains(0) by {
            assert(a1[i] == a[i]);
        }
        assert forall|i: int| 0 <= i < b1.len() implies !encode_utf8(#[trigger] b1[i]).contains(0) by {
            assert(b1[i] == b[i]);
        }
        zero_led_is_injective(p, a1, q, b1);
        assert(a =~= a1.push(a.last()));
        assert(b =~= b1.push(b.last()));
    }
}

/// A change of the own source, or of an output of a dependency, changes what the effective hash is
/// the digest of. Hashes hold no zero byte.
pub proof fn changes_move_the_digest_input(
    own1: Seq<char>,
    hashes1: Seq<Seq<char>>,
    own2: Seq<char>,
    hashes2: Seq<Seq<char>>,
)
    requires
        eff_input(Some(own1), hashes1) == eff_input(Some(own2), hashes2),
        !encode_utf8(own1).contains(0),
        !encode_utf8(own2).contains(0),
        forall|i: int|
            0 <= i < hashes1.len() ==> !encode_utf8(#[trigger] hashes1[i]).contains(0),
        forall|i: int|
            0 <= i < hashes2.len() ==> !encode_utf8(#[trigger] hashes2[i]).contains(0),
    ensures
        own1 == own2,
        sorting::sorted(hashes1) == sorting::sorted(hashes2),
        hashes1.to_multiset() == hashes2.to_multiset(),
{
    let a = sorting::sorted(hashes1);
    let b = sorting::sorted(hashes2);
    let r = |a: Seq<char>, b: Seq<char>| sorting::str_le(a, b);
    sorting::str_le_is_total();
    hashes1.lemma_sort_by_ensures(r);
    hashes2.lemma_sort_by_ensures(r);
    assert forall|i: int| 0 <= i < a.len() implies !encode_utf8(#[trigger] a[i]).contains(0) by {
        assert(a.contains(a[i]));
        assert(hashes1.contains(a[i]));
        let j = choose|j: int| 0 <= j < hashes1.len() && hashes1[j] == a[i];
        assert(!encode_utf8(hashes1[j]).contains(0));
    }
    assert forall|i: int| 0 <= i < b.len() implies !encode_utf8(#[trigger] b[i]).contains(0) by {
        assert(b.contains(b[i]));
        assert(hashes2.contains(b[i]));
        let j = choose|j: int| 0 <= j < hashes2.len() && hashes2[j] == b[i];
        assert(!encode_utf8(hashes2[j]).contains(0));
    }
    zero_led_is_injective(encode_utf8(own1), a, encode_utf8(own2), b);
    text::encoding_is_injective(own1, own2);
}

/// A chain of dependencies from one unit down to one whose own source is hashed.
pub open spec fn leads_to_source(
    nodes: Map<Seq<char>, NodeView>,
    own: Set<Seq<char>>,
    c: Seq<Seq<char>>,
) -> bool {
    &&& c.len() > 0
    &&& own.contains(c.last())
    &&& forall|i: int|
        0 <= i < c.len() - 1 ==> nodes.contains_key(#[trigger] c[i])
            && nodes[c[i]].crate_deps.contains(c[i + 1])
}

/// Whether a unit is tracked: its own source is hashed, or it depends on such a unit.
pub open spec fn is_tracked(
    nodes: Map<Seq<char>, NodeView>,
    own: Set<Seq<char>>,
    x: Seq<char>,
) -> bool {
    exists|c: Seq<Seq<char>>| #[trigger] leads_to_source(nodes, own, c) && c[0] == x
}

/// A unit is tracked exactly if its own source is hashed or it has a tracked dependency.
pub proof fn tracking_cascades(nodes: Map<Seq<char>, NodeView>, own: Set<Seq<char>>, x: Seq<char>)
    ensures
        is_tracked(nodes, own, x) <==> own.contains(x) || (nodes.contains_key(x) && exists|d: Seq<
            char,
        >| #[trigger] nodes[x].crate_deps.contains(d) && is_tracked(nodes, own, d)),
{
    if own.contains(x) {
        let c = seq![x];
        assert(leads_to_source(nodes, own, c) && c[0] == x);
    }
    if nodes.contains_key(x) && exists|d: Seq<char>| #[trigger]
        nodes[x].crate_deps.contains(d) && is_tracked(nodes, own, d) {
        let d = choose|d: Seq<char>| #[trigger]
            nodes[x].crate_deps.contains(d) && is_tracked(nodes, own, d);
        let c = choose|c: Seq<Seq<char>>| #[trigger] leads_to_source(nodes, own, c) && c[0] == d;
        let e = seq![x] + c;
        assert forall|i: int| 0 <= i < e.len() - 1 implies nodes.contains_key(#[trigger] e[i])
            && nodes[e[i]].crate_deps.contains(e[i + 1]) by {
            if i > 0 {
                assert(e[i] == c[i - 1] && e[i + 1] == c[i]);
                assert(nodes.contains_key(c[i - 1]));
            } else {
                assert(e[1] == c[0]);
            }
        }
        assert(e.last() == c.last());
        assert(leads_to_source(nodes, own, e) && e[0] == x);
    }
    if is_tracked(nodes, own, x) && !own.contains(x) {
        let c = choose|c: Seq<Seq<char>>| #[trigger] leads_to_source(nodes, own, c) && c[0] == x;
        if c.len() == 1 {
            assert(c.last() == x);
        }
        let d = c[1];
        let e = c.drop_first();
        assert(nodes.contains_key(c[0]) && nodes[c[0]].crate_deps.contains(c[0int + 1]));
        assert forall|i: int| 0 <= i < e.len() - 1 implies nodes.contains_key(#[trigger] e[i])
            && nodes[e[i]].crate_deps.contains(e[i + 1]) by {
            assert(e[i] == c[i + 1] && e[i + 1] == c[i + 1 + 1]);
        }
        assert(e.last() == c.last());
        assert(leads_to_source(nodes, own, e) && e[0] == d);
    }
}

/// A dependency that is tracked stands in the graph before its dependent, or is no node.
proof fn tracked_dependency(
    nodes: Map<Seq<char>, NodeView>,
    order: Seq<Seq<char>>,
    own: Set<Seq<char>>,
    i: int,
    d: Seq<char>,
)
    requires
        graph::in_order(nodes, order),
        0 <= i < order.len(),
        nodes[order[i]].crate_deps.contains(d),
    ensures
        nodes.contains_key(d) ==> order.take(i).contains(d),
        is_tracked(nodes, own, d) ==> own.contains(d) || order.take(i).contains(d),
{
    assert(nodes.contains_key(order[i]));
    tracking_cascades(nodes, own, d);
    if nodes.contains_key(d) {
        assert(graph::needs(nodes, order[i], d));
    }
}

fn any_in(deps: &Vec<String>, set: &StrSet) -> (r: bool)
    ensures
        r == exists|d: Seq<char>| #[trigger] deps.deep_view().contains(d) && set@.contains(d),
{
    for j in 0..deps.len()
        invariant
            forall|i: int| 0 <= i < j ==> !set@.contains(#[trigger] deps.deep_view()[i]),
    {
        if set.contains(deps[j].as_str()) {
            assert(deps.deep_view()[j as int] == deps@[j as int]@);
            assert(deps.deep_view().contains(deps@[j as int]@));
            return true;
        }
    }
    false
}

/// The tracked units: those in `own`, and every node downstream of one of them.
pub fn tracked_set(g: &BuildGraph, own: &StrMap<OwnHash>) -> (r: StrSet)
    requires
        g.wf(),
    ensures
        forall|x: Seq<char>| #[trigger]
            r@.contains(x) <==> is_tracked(g.nodes@, own@.dom(), x),
{
    let mut found: StrSet = StrSet::new();
    let n: usize = own.len();
    let ghost l = strmap::listing(own@);
    for i in 0..n
        invariant
            l == strmap::listing(own@),
            n == l.len(),
            forall|x: Seq<char>| #[trigger]
                found@.contains(x) <==> strmap::has_key(l.take(i as int), x),
    {
        let ghost before = found@;
        found.insert(own.key(i).clone());
        proof {
            assert forall|x: Seq<char>| #[trigger] found@.contains(x) <==> strmap::has_key(
                l.take(i + 1),
                x,
            ) by {
                assert(before.contains(x) <==> strmap::has_key(l.take(i as int), x));
                strmap::one_more_key(l, i as int, x);
            }
        }
    }
    assert(l.take(n as int) =~= l);
    let ghost nodes = g.nodes@;
    let ghost order = g.topo_order.deep_view();
    let ghost o = own@.dom();
    proof {
        assert forall|x: Seq<char>| #[trigger] found@.contains(x) <==> o.contains(x) by {
            assert(strmap::as_map(l).contains_key(x) <==> strmap::has_key(l, x));
        }
    }
    for i in 0..g.topo_order.len()
        invariant
            g.wf(),
            nodes == g.nodes@,
            order == g.topo_order.deep_view(),
            o == own@.dom(),
            forall|x: Seq<char>| #[trigger]
                found@.contains(x) <==> o.contains(x) || (order.take(i as int).contains(x)
                    && is_tracked(nodes, o, x)),
    {
        let drv = &g.topo_order[i];
        let ghost before = found@;
        proof {
            assert(order[i as int] == drv@);
            assert(nodes.contains_key(order[i as int]));
            tracking_cascades(nodes, o, drv@);
        }
        if !found.contains(drv.as_str()) {
            if let Some(node) = g.nodes.get(drv.as_str()) {
                let hit = any_in(&node.crate_deps, &found);
                proof {
                    assert(node.crate_deps.deep_view() == nodes[drv@].crate_deps);
                    if hit {
                        let d = choose|d: Seq<char>| #[trigger]
                            node.crate_deps.deep_view().contains(d) && found@.contains(d);
                        tracking_cascades(nodes, o, d);
                        assert(is_tracked(nodes, o, d));
                    }
                    if is_tracked(nodes, o, drv@) && !o.contains(drv@) {
                        let d = choose|d: Seq<char>| #[trigger]
                            nodes[drv@].crate_deps.contains(d) && is_tracked(nodes, o, d);
                        tracked_dependency(nodes, order, o, i as int, d);
                        assert(found@.contains(d));
                    }
                }
                if hit {
                    found.insert(drv.clone());
                }
            }
        }
        proof {
            let t = order.take(i as int);
            let u = order.take(i + 1);
            assert(u =~= t.push(drv@));
            assert forall|x: Seq<char>| #[trigger] found@.contains(x) <==> o.contains(x) || (
            u.contains(x) && is_tracked(nodes, o, x)) by {
                assert(before.contains(x) <==> o.contains(x) || (t.contains(x) && is_tracked(
                    nodes,
                    o,
                    x,
                )));
                graph::pushed(t, drv@, x);
            }
        }
    }
    proof {
        assert(order.take(order.len() as int) =~= order);
        assert forall|x: Seq<char>| #[trigger] found@.contains(x) <==> is_tracked(nodes, o, x) by {
            tracking_cascades(nodes, o, x);
            if nodes.contains_key(x) {
                assert(order.to_set().contains(x));
            }
        }
    }
    found
}

/// The effective hashes of some overrides.
pub open spec fn source_hashes(m: Map<Seq<char>, OverrideView>) -> Map<Seq<char>, Seq<char>> {
    m.map_values(|o: OverrideView| o.source_hash)
}

/// The override of a unit, where its dependencies propagate the given hashes.
pub open spec fn override_of(
    nodes: Map<Seq<char>, NodeView>,
    own: Map<Seq<char>, OwnView>,
    hashes: Map<Seq<char>, Seq<char>>,
    x: Seq<char>,
) -> OverrideView {
    OverrideView {
        src_path: match value_at(own, x) {
            Some(o) => Some(o.src_dir),
            None => None,
        },
        source_hash: eff(value_at(own, x), nodes[x].crate_deps, hashes),
    }
}

fn any_key(deps: &Vec<String>, m: &StrMap<String>) -> (r: bool)
    ensures
        r == exists|d: Seq<char>| #[trigger] deps.deep_view().contains(d) && m@.contains_key(d),
{
    for j in 0..deps.len()
        invariant
            forall|i: int| 0 <= i < j ==> !m@.contains_key(#[trigger] deps.deep_view()[i]),
    {
        if m.contains_key(deps[j].as_str()) {
            assert(deps.deep_view()[j as int] == deps@[j as int]@);
            assert(deps.deep_view().contains(deps@[j as int]@));
            return true;
        }
    }
    false
}

/// A hash for a unit that is none of the dependencies changes nothing for them.
proof fn later_hash_does_not_count(
    own: Option<OwnView>,
    deps: Seq<Seq<char>>,
    m: Map<Seq<char>, Seq<char>>,
    x: Seq<char>,
    h: Seq<char>,
)
    requires
        !deps.contains(x),
    ensures
        eff(own, deps, m) == eff(own, deps, m.insert(x, h)),
{
    assert forall|i: int| 0 <= i < deps.len() implies value_at(m, #[trigger] deps[i]) == value_at(
        m.insert(x, h),
        deps[i],
    ) by {
        assert(deps.contains(deps[i]));
    }
    unchanged_outputs_keep_the_hash(own, deps, m, m.insert(x, h));
}

/// No unit up to a place in the order depends on the one at that place.
pub proof fn self_or_later(
    nodes: Map<Seq<char>, NodeView>,
    order: Seq<Seq<char>>,
    i: int,
    x: Seq<char>,
)
    requires
        graph::in_order(nodes, order),
        0 <= i < order.len(),
        x == order[i] || order.take(i).contains(x),
    ensures
        !nodes[x].crate_deps.contains(order[i]),
{
    if nodes[x].crate_deps.contains(order[i]) {
        let t = order.take(i);
        let k = if x == order[i] { i } else { choose|k: int| 0 <= k < t.len() && t[k] == x };
        assert(order[k] == x);
        assert(nodes.contains_key(order[i]) && nodes.contains_key(order[k]));
        assert(graph::needs(nodes, order[k], order[i]));
        let u = order.take(k);
        assert(u.contains(order[i]));
        let j = choose|j: int| 0 <= j < u.len() && u[j] == order[i];
        assert(order[j] == order[i]);
    }
}

/// The overrides of the tracked units among the first `i` of the order.
spec fn cascaded(
    nodes: Map<Seq<char>, NodeView>,
    order: Seq<Seq<char>>,
    own: Map<Seq<char>, OwnView>,
    i: int,
    out: Map<Seq<char>, OverrideView>,
) -> bool {
    &&& forall|x: Seq<char>| #[trigger]
        out.contains_key(x) <==> order.take(i).contains(x) && is_tracked(nodes, own.dom(), x)
    &&& forall|x: Seq<char>| #[trigger]
        out.contains_key(x) ==> out[x] == override_of(nodes, own, source_hashes(out), x)
}

/// Whether the next unit of the order is tracked shows in the overrides before it.
proof fn next_is_tracked(
    nodes: Map<Seq<char>, NodeView>,
    order: Seq<Seq<char>>,
    own: Map<Seq<char>, OwnView>,
    i: int,
    out: Map<Seq<char>, OverrideView>,
)
    requires
        graph::in_order(nodes, order),
        graph::deps_closed(nodes),
        0 <= i < order.len(),
        cascaded(nodes, order, own, i, out),
    ensures
        is_tracked(nodes, own.dom(), order[i]) <==> own.contains_key(order[i]) || exists|d: Seq<char>|
            #[trigger] nodes[order[i]].crate_deps.contains(d) && out.contains_key(d),
{
    let x = order[i];
    assert(nodes.contains_key(x));
    tracking_cascades(nodes, own.dom(), x);
    if is_tracked(nodes, own.dom(), x) && !own.contains_key(x) {
        let d = choose|d: Seq<char>| #[trigger]
            nodes[x].crate_deps.contains(d) && is_tracked(nodes, own.dom(), d);
        tracked_dependency(nodes, order, own.dom(), i, d);
        assert(nodes.contains_key(d));
        assert(out.contains_key(d));
    }
}

proof fn cascade_step(
    nodes: Map<Seq<char>, NodeView>,
    order: Seq<Seq<char>>,
    own: Map<Seq<char>, OwnView>,
    i: int,
    before: Map<Seq<char>, OverrideView>,
    after: Map<Seq<char>, OverrideView>,
)
    requires
        graph::in_order(nodes, order),
        0 <= i < order.len(),
        cascaded(nodes, order, own, i, before),
        after == (if is_tracked(nodes, own.dom(), order[i]) {
            before.insert(order[i], override_of(nodes, own, source_hashes(before), order[i]))
        } else {
            before
        }),
    ensures
        cascaded(nodes, order, own, i + 1, after),
{
    let t = order.take(i);
    let u = order.take(i + 1);
    let y = order[i];
    assert(u =~= t.push(y));
    assert forall|x: Seq<char>| #[trigger] after.contains_key(x) <==> u.contains(x) && is_tracked(
        nodes,
        own.dom(),
        x,
    ) by {
        assert(before.contains_key(x) <==> t.contains(x) && is_tracked(nodes, own.dom(), x));
        graph::pushed(t, y, x);
    }
    if is_tracked(nodes, own.dom(), y) {
        let h = override_of(nodes, own, source_hashes(before), y).source_hash;
        assert(source_hashes(after) =~= source_hashes(before).insert(y, h));
        assert forall|x: Seq<char>| #[trigger] after.contains_key(x) implies after[x]
            == override_of(nodes, own, source_hashes(after), x) by {
            if x != y {
                assert(before.contains_key(x));
            }
            self_or_later(nodes, order, i, x);
            later_hash_does_not_count(
                value_at(own, x),
                nodes[x].crate_deps,
                source_hashes(before),
                y,
                h,
            );
        }
    }
}

/// The overrides of a graph: one for every tracked unit of it, whose hash is made of its own hash
/// and those of its tracked dependencies and is 32 hexadecimal digits.
pub open spec fn is_cascade(
    nodes: Map<Seq<char>, NodeView>,
    own: Map<Seq<char>, OwnView>,
    r: Map<Seq<char>, OverrideView>,
) -> bool {
    &&& forall|x: Seq<char>| #[trigger]
        r.contains_key(x) <==> nodes.contains_key(x) && is_tracked(nodes, own.dom(), x)
    &&& forall|x: Seq<char>| #[trigger]
        r.contains_key(x) ==> r[x] == override_of(nodes, own, source_hashes(r), x)
    &&& forall|x: Seq<char>| #[trigger]
        r.contains_key(x) ==> r[x].source_hash.len() == 32 && digest::hex_text(r[x].source_hash)
}

/// Carries the own hashes through the graph: every tracked unit of it gets an override, whose hash
/// is made of its own hash and those of its tracked dependencies.
pub fn cascade(g: &BuildGraph, own: &StrMap<OwnHash>) -> (r: StrMap<SourceOverride>)
    requires
        g.wf(),
    ensures
        is_cascade(g.nodes@, own@, r@),
{
    let ghost nodes = g.nodes@;
    let ghost order = g.topo_order.deep_view();
    let mut hashes: StrMap<String> = StrMap::new();
    let mut out: StrMap<SourceOverride> = StrMap::new();
    assert(hashes@ =~= source_hashes(out@));
    for i in 0..g.topo_order.len()
        invariant
            g.wf(),
            nodes == g.nodes@,
            order == g.topo_order.deep_view(),
            hashes@ == source_hashes(out@),
            cascaded(nodes, order, own@, i as int, out@),
            forall|x: Seq<char>| #[trigger]
                out@.contains_key(x) ==> out@[x].source_hash.len() == 32 && digest::hex_text(
                    out@[x].source_hash,
                ),
    {
        let drv = &g.topo_order[i];
        let ghost before = out@;
        proof {
            assert(order[i as int] == drv@);
            assert(nodes.contains_key(order[i as int]));
            next_is_tracked(nodes, order, own@, i as int, before);
        }
        let mine = own.get(drv.as_str());
        if let Some(node) = g.nodes.get(drv.as_str()) {
            let hit = any_key(&node.crate_deps, &hashes);
            proof {
                let deps = nodes[drv@].crate_deps;
                assert(node.crate_deps.deep_view() == deps);
                assert forall|d: Seq<char>| hashes@.contains_key(d) <==> before.contains_key(d) by {}
                assert(hit <==> exists|d: Seq<char>| #[trigger]
                    deps.contains(d) && before.contains_key(d));
            }
            if mine.is_some() || hit {
                let h = eff_hash(mine, &node.crate_deps, &hashes);
                let src_path = match mine {
                    Some(m) => Some(m.src_dir.clone()),
                    None => None,
                };
                hashes.insert(drv.clone(), h.clone());
                out.insert(drv.clone(), SourceOverride { src_path, source_hash: h });
                assert(hashes@ =~= source_hashes(out@));
            }
        }
        proof {
            cascade_step(nodes, order, own@, i as int, before, out@);
        }
    }
    proof {
        assert(order.take(order.len() as int) =~= order);
        assert forall|x: Seq<char>| #[trigger] out@.contains_key(x) <==> nodes.contains_key(x)
            && is_tracked(nodes, own@.dom(), x) by {
            assert(order.to_set().contains(x) <==> nodes.contains_key(x));
        }
    }
    out
}

/// A unit with a source of its own is built from that source; one that is only rebuilt because of a
/// dependency keeps the source of its derivation.
pub proof fn only_own_source_is_replaced(
    nodes: Map<Seq<char>, NodeView>,
    own: Map<Seq<char>, OwnView>,
    r: Map<Seq<char>, OverrideView>,
    x: Seq<char>,
)
    requires
        is_cascade(nodes, own, r),
        r.contains_key(x),
    ensures
        own.contains_key(x) ==> r[x].src_path == Some(own[x].src_dir),
        !own.contains_key(x) ==> r[x].src_path is None,
{
}

/// Every dependency that propagates a hash contributes it, each as often as it is named, and nothing
/// else contributes.
pub proof fn each_dependency_contributes(
    a: Seq<Seq<char>>,
    d: Seq<char>,
    propagated: Map<Seq<char>, Seq<char>>,
)
    ensures
        propagated.contains_key(d) ==> hashes_of(a.push(d), propagated) == hashes_of(a, propagated)
            + seq![propagated[d]],
        !propagated.contains_key(d) ==> hashes_of(a.push(d), propagated) == hashes_of(a, propagated),
        hashes_of(Seq::empty(), propagated) == Seq::<Seq<char>>::empty(),
{
    assert(a.push(d).drop_last() =~= a);
    if propagated.contains_key(d) {
        assert(hashes_of(a, propagated).push(propagated[d]) =~= hashes_of(a, propagated) + seq![
            propagated[d],
        ]);
    }
}

/// A unit is built from the directory of its source exactly where that is watched, and its hash is
/// that of its own source and of what its dependencies hand on.
pub proof fn watched_sources_are_built_from(
    nodes: Map<Seq<char>, NodeView>,
    own: Map<Seq<char>, OwnView>,
    hashes: Map<Seq<char>, Seq<char>>,
    x: Seq<char>,
)
    ensures
        own.contains_key(x) ==> override_of(nodes, own, hashes, x).src_path == Some(own[x].src_dir)
            && override_of(nodes, own, hashes, x).source_hash == eff(
            Some(own[x]),
            nodes[x].crate_deps,
            hashes,
        ),
        !own.contains_key(x) ==> override_of(nodes, own, hashes, x).src_path is None && override_of(
            nodes,
            own,
            hashes,
            x,
        ).source_hash == eff(None, nodes[x].crate_deps, hashes),
{
}

} // verus!
