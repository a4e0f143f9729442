//! What the key of a unit stands on: which hash of a dependency counts for which unit, and which
//! change of a hash moves the key.
use crate::digest;
use crate::overrides;
use crate::run;
use crate::run::Run;
use crate::sorting;
use crate::strmap;
use crate::text;
use vstd::prelude::*;
use vstd::utf8::*;

verus! {

/// The bytes that the effective hash of a unit is the digest of.
pub open spec fn digested(r: &Run, x: usize) -> Seq<u8> {
    let d = r.name(x);
    overrides::eff_input(
        match overrides::value_at(r.own_hashes(), d) {
            Some(o) => Some(o.hash),
            None => None,
        },
        overrides::hashes_of(
            r.nodes()[d].crate_deps,
            run::all_propagated(r@, r.keyed_units(), r.linking_units().contains(d)),
        ),
    )
}

/// The key of a unit whose key takes in outputs is the digest of the path of its derivation, a zero
/// byte, and 32 digits of the digest of what is digested for it.
pub open spec fn keyed_by(r: &Run, x: usize, bytes: Seq<u8>) -> bool {
    r.unit_key(x) == digest::blake3_hex(
        encode_utf8(r.name(x)) + seq![0u8] + encode_utf8(digest::blake3_hex(bytes).take(32)),
    )
}

/// No hash of a map holds a zero byte.
pub open spec fn no_zeros(m: Map<Seq<char>, Seq<char>>) -> bool {
    forall|d: Seq<char>| #[trigger] m.contains_key(d) ==> !encode_utf8(m[d]).contains(0)
}

/// No hash that a run knows holds a zero byte, as no digest does.
pub open spec fn known_hashes(r: &Run) -> bool {
    &&& no_zeros(r@.propagated)
    &&& no_zeros(r@.early)
    &&& no_zeros(r@.eff_key)
    &&& forall|d: Seq<char>| #[trigger]
        r.own_hashes().contains_key(d) ==> !encode_utf8(r.own_hashes()[d].hash).contains(0)
}

/// Two maps give the same value for all keys but one.
pub open spec fn same_but(
    a: Map<Seq<char>, Seq<char>>,
    b: Map<Seq<char>, Seq<char>>,
    d: Seq<char>,
) -> bool {
    forall|e: Seq<char>|
        e != d ==> (#[trigger] a.contains_key(e) <==> b.contains_key(e)) && (a.contains_key(e)
            ==> a[e] == b[e])
}

/// A unit, one of its dependencies, and both keys take in outputs.
pub open spec fn keyed_edge(r: &Run, x: usize, d: Seq<char>) -> bool {
    &&& x < strmap::listing(r.nodes()).len()
    &&& r.keyed_units().contains(r.name(x))
    &&& r.nodes()[r.name(x)].crate_deps.contains(d)
    &&& r.keyed_units().contains(d)
}

proof fn key_is_of_digested(r: &Run, x: usize)
    requires
        r.keyed_units().contains(r.name(x)),
    ensures
        keyed_by(r, x, digested(r, x)),
{
}

/// Where one hash among those of the dependencies changes, there is one less of it.
proof fn one_less(
    deps: Seq<Seq<char>>,
    p: Map<Seq<char>, Seq<char>>,
    q: Map<Seq<char>, Seq<char>>,
    d: Seq<char>,
)
    requires
        same_but(p, q, d),
        p.contains_key(d),
        q.contains_key(d),
        p[d] != q[d],
    ensures
        overrides::hashes_of(deps, p).to_multiset().count(p[d]) == overrides::hashes_of(
            deps,
            q,
        ).to_multiset().count(p[d]) + deps.to_multiset().count(d),
    decreases deps.len(),
{
    broadcast use vstd::seq_lib::group_to_multiset_ensures;

    if deps.len() == 0 {
        assert(deps =~= Seq::empty());
        assert(overrides::hashes_of(deps, p) =~= Seq::empty());
        assert(overrides::hashes_of(deps, q) =~= Seq::empty());
    } else {
        let e = deps.drop_last();
        one_less(e, p, q, d);
        assert(deps =~= e.push(deps.last()));
        let k = deps.last();
        if k != d {
            assert(p.contains_key(k) <==> q.contains_key(k));
        }
    }
}

/// What is digested for a unit moves where the hash of a dependency that counts does.
proof fn counted_moves(a: &Run, b: &Run, x: usize, d: Seq<char>)
    requires
        b.same_units(a),
        keyed_edge(a, x, d),
        known_hashes(a),
        known_hashes(b),
        ({
            let l = a.linking_units().contains(a.name(x));
            let p = run::all_propagated(a@, a.keyed_units(), l);
            let q = run::all_propagated(b@, b.keyed_units(), l);
            same_but(p, q, d) && p.contains_key(d) && q.contains_key(d) && p[d] != q[d]
        }),
    ensures
        digested(a, x) != digested(b, x),
        keyed_by(a, x, digested(a, x)),
        keyed_by(b, x, digested(b, x)),
{
    let n = a.name(x);
    let l = a.linking_units().contains(n);
    let p = run::all_propagated(a@, a.keyed_units(), l);
    let q = run::all_propagated(b@, b.keyed_units(), l);
    let deps = a.nodes()[n].crate_deps;
    let s = overrides::hashes_of(deps, p);
    let t = overrides::hashes_of(deps, q);
    one_less(deps, p, q, d);
    deps.to_multiset_ensures();
    assert(deps.to_multiset().count(d) > 0);
    let o = if a.own_hashes().contains_key(n) {
        a.own_hashes()[n].hash
    } else {
        Seq::empty()
    };
    assert(encode_utf8(Seq::<char>::empty()) =~= Seq::empty());
    assert(digested(a, x) == overrides::eff_input(Some(o), s));
    assert(digested(b, x) == overrides::eff_input(Some(o), t));
    if digested(a, x) == digested(b, x) {
        assert forall|i: int| 0 <= i < s.len() implies !encode_utf8(#[trigger] s[i]).contains(0) by {
            let k = hash_is_among(deps, p, i);
            assert(run::propagated_to(a@, a.keyed_units(), l, k) is Some);
        }
        assert forall|i: int| 0 <= i < t.len() implies !encode_utf8(#[trigger] t[i]).contains(0) by {
            let k = hash_is_among(deps, q, i);
            assert(run::propagated_to(b@, b.keyed_units(), l, k) is Some);
        }
        assert(!encode_utf8(o).contains(0));
        overrides::changes_move_the_digest_input(o, s, o, t);
    }
    key_is_of_digested(a, x);
    key_is_of_digested(b, x);
}

proof fn hash_is_among(deps: Seq<Seq<char>>, p: Map<Seq<char>, Seq<char>>, i: int) -> (k: Seq<char>)
    requires
        0 <= i < overrides::hashes_of(deps, p).len(),
    ensures
        p.contains_key(k),
        p[k] == overrides::hashes_of(deps, p)[i],
    decreases deps.len(),
{
    let r = overrides::hashes_of(deps.drop_last(), p);
    if i < r.len() {
        hash_is_among(deps.drop_last(), p, i)
    } else {
        deps.last()
    }
}

/// A unit that links goes by the full outputs of its dependencies: where the hash of one of them
/// changes, what is digested for the unit changes, whatever interface hashes are known.
pub proof fn linking_goes_by_outputs(a: &Run, b: &Run, x: usize, d: Seq<char>)
    requires
        b.same_units(a),
        keyed_edge(a, x, d),
        a.linking_units().contains(a.name(x)),
        known_hashes(a),
        known_hashes(b),
        a@.propagated.contains_key(d),
        b@.propagated.contains_key(d),
        a@.propagated[d] != b@.propagated[d],
        same_but(a@.propagated, b@.propagated, d),
        a@.eff_key == b@.eff_key,
    ensures
        digested(a, x) != digested(b, x),
        keyed_by(a, x, digested(a, x)),
        keyed_by(b, x, digested(b, x)),
{
    let p = run::all_propagated(a@, a.keyed_units(), true);
    let q = run::all_propagated(b@, b.keyed_units(), true);
    assert forall|e: Seq<char>| e != d implies (#[trigger] p.contains_key(e) <==> q.contains_key(e))
        && (p.contains_key(e) ==> p[e] == q[e]) by {
        assert(a@.propagated.contains_key(e) <==> b@.propagated.contains_key(e));
    }
    counted_moves(a, b, x, d);
}

/// The interface hashes of dependencies do not count for a unit that links.
pub proof fn linking_ignores_interfaces(a: &Run, b: &Run, x: usize)
    requires
        b.same_units(a),
        x < strmap::listing(a.nodes()).len(),
        a.linking_units().contains(a.name(x)),
        a@.propagated == b@.propagated,
        a@.eff_key == b@.eff_key,
    ensures
        a.unit_key(x) == b.unit_key(x),
{
    run::same_outputs_same_key(a, b, x);
}

/// A unit that does not link goes by the interfaces of its dependencies: where the hash of one of
/// them changes, what is digested for the unit changes, whatever full outputs its dependencies
/// with an interface hash have.
pub proof fn compiling_goes_by_interfaces(a: &Run, b: &Run, x: usize, d: Seq<char>)
    requires
        b.same_units(a),
        keyed_edge(a, x, d),
        !a.linking_units().contains(a.name(x)),
        known_hashes(a),
        known_hashes(b),
        a@.early.contains_key(d),
        b@.early.contains_key(d),
        a@.early[d] != b@.early[d],
        same_but(a@.early, b@.early, d),
        a@.eff_key == b@.eff_key,
        forall|e: Seq<char>|
            !a@.early.contains_key(e) ==> (#[trigger] a@.propagated.contains_key(e)
                <==> b@.propagated.contains_key(e)) && (a@.propagated.contains_key(e)
                ==> a@.propagated[e] == b@.propagated[e]),
    ensures
        digested(a, x) != digested(b, x),
        keyed_by(a, x, digested(a, x)),
        keyed_by(b, x, digested(b, x)),
{
    let p = run::all_propagated(a@, a.keyed_units(), false);
    let q = run::all_propagated(b@, b.keyed_units(), false);
    assert forall|e: Seq<char>| e != d implies (#[trigger] p.contains_key(e) <==> q.contains_key(e))
        && (p.contains_key(e) ==> p[e] == q[e]) by {
        assert(a@.early.contains_key(e) <==> b@.early.contains_key(e));
        assert(a@.propagated.contains_key(e) ==> true);
    }
    counted_moves(a, b, x, d);
}

/// The cutoff: a dependency that is built anew to the same interface leaves the key of a unit that
/// does not link, whatever became of its full output.
pub proof fn outputs_behind_an_interface_do_not_count(a: &Run, b: &Run, x: usize)
    requires
        b.same_units(a),
        x < strmap::listing(a.nodes()).len(),
        !a.linking_units().contains(a.name(x)),
        a@.early == b@.early,
        a@.eff_key == b@.eff_key,
        forall|e: Seq<char>|
            !a@.early.contains_key(e) ==> (#[trigger] a@.propagated.contains_key(e)
                <==> b@.propagated.contains_key(e)) && (a@.propagated.contains_key(e)
                ==> a@.propagated[e] == b@.propagated[e]),
    ensures
        a.unit_key(x) == b.unit_key(x),
{
    let deps = a.nodes()[a.name(x)].crate_deps;
    assert forall|i: int| 0 <= i < deps.len() implies run::propagated_to(
        a@,
        a.keyed_units(),
        false,
        #[trigger] deps[i],
    ) == run::propagated_to(b@, b.keyed_units(), false, deps[i]) by {
        let e = deps[i];
        assert(a@.propagated.contains_key(e) ==> true);
    }
    run::same_outputs_same_key(a, b, x);
}

/// Where a dependency has no interface hash, its full output counts for every unit.
pub proof fn without_interface_outputs_count(a: &Run, b: &Run, x: usize, d: Seq<char>)
    requires
        b.same_units(a),
        keyed_edge(a, x, d),
        known_hashes(a),
        known_hashes(b),
        !a@.early.contains_key(d),
        a@.early == b@.early,
        a@.propagated.contains_key(d),
        b@.propagated.contains_key(d),
        a@.propagated[d] != b@.propagated[d],
        same_but(a@.propagated, b@.propagated, d),
        a@.eff_key == b@.eff_key,
    ensures
        digested(a, x) != digested(b, x),
        keyed_by(a, x, digested(a, x)),
        keyed_by(b, x, digested(b, x)),
{
    let l = a.linking_units().contains(a.name(x));
    let p = run::all_propagated(a@, a.keyed_units(), l);
    let q = run::all_propagated(b@, b.keyed_units(), l);
    assert forall|e: Seq<char>| e != d implies (#[trigger] p.contains_key(e) <==> q.contains_key(e))
        && (p.contains_key(e) ==> p[e] == q[e]) by {
        assert(a@.propagated.contains_key(e) <==> b@.propagated.contains_key(e));
    }
    counted_moves(a, b, x, d);
}

/// Where a dependency has no hash at all, its own key counts for every unit.
pub proof fn without_hashes_keys_count(a: &Run, b: &Run, x: usize, d: Seq<char>)
    requires
        b.same_units(a),
        keyed_edge(a, x, d),
        known_hashes(a),
        known_hashes(b),
        !a@.early.contains_key(d),
        !a@.propagated.contains_key(d),
        a@.early == b@.early,
        a@.propagated == b@.propagated,
        a@.eff_key.contains_key(d),
        b@.eff_key.contains_key(d),
        a@.eff_key[d] != b@.eff_key[d],
        same_but(a@.eff_key, b@.eff_key, d),
    ensures
        digested(a, x) != digested(b, x),
        keyed_by(a, x, digested(a, x)),
        keyed_by(b, x, digested(b, x)),
{
    let l = a.linking_units().contains(a.name(x));
    let p = run::all_propagated(a@, a.keyed_units(), l);
    let q = run::all_propagated(b@, b.keyed_units(), l);
    assert forall|e: Seq<char>| e != d implies (#[trigger] p.contains_key(e) <==> q.contains_key(e))
        && (p.contains_key(e) ==> p[e] == q[e]) by {
        assert(a@.eff_key.contains_key(e) <==> b@.eff_key.contains_key(e));
    }
    counted_moves(a, b, x, d);
}

/// What a run knows of a dependency whose key does not take in outputs does not count, and the key
/// of a unit of that kind is the digest of the path of its derivation.
pub proof fn untracked_units_do_not_count(a: &Run, b: &Run, x: usize)
    requires
        b.same_units(a),
        x < strmap::listing(a.nodes()).len(),
        forall|e: Seq<char>| #[trigger]
            a.keyed_units().contains(e) ==> (a@.propagated.contains_key(e)
                <==> b@.propagated.contains_key(e)) && (a@.propagated.contains_key(e)
                ==> a@.propagated[e] == b@.propagated[e]) && (a@.early.contains_key(e)
                <==> b@.early.contains_key(e)) && (a@.early.contains_key(e) ==> a@.early[e]
                == b@.early[e]) && (a@.eff_key.contains_key(e) <==> b@.eff_key.contains_key(e))
                && (a@.eff_key.contains_key(e) ==> a@.eff_key[e] == b@.eff_key[e]),
    ensures
        a.unit_key(x) == b.unit_key(x),
        !a.keyed_units().contains(a.name(x)) ==> a.unit_key(x) == digest::blake3_hex(
            encode_utf8(a.name(x)),
        ),
{
    run::same_outputs_same_key(a, b, x);
}

/// An edit of a unit's own source moves what is digested for it.
pub proof fn own_source_counts(a: &Run, b: &Run, x: usize)
    requires
        b.nodes() == a.nodes(),
        b.keyed_units() == a.keyed_units(),
        b.linking_units() == a.linking_units(),
        a@ == b@,
        x < strmap::listing(a.nodes()).len(),
        a.keyed_units().contains(a.name(x)),
        a.own_hashes().contains_key(a.name(x)),
        b.own_hashes().contains_key(a.name(x)),
        a.own_hashes()[a.name(x)].hash != b.own_hashes()[a.name(x)].hash,
    ensures
        digested(a, x) != digested(b, x),
        keyed_by(a, x, digested(a, x)),
        keyed_by(b, x, digested(b, x)),
{
    let n = a.name(x);
    let hs = overrides::hashes_of(
        a.nodes()[n].crate_deps,
        run::all_propagated(a@, a.keyed_units(), a.linking_units().contains(n)),
    );
    let z = overrides::zero_led(sorting::sorted(hs));
    let p = encode_utf8(a.own_hashes()[n].hash);
    let q = encode_utf8(b.own_hashes()[n].hash);
    if digested(a, x) == digested(b, x) {
        assert(p + z == q + z);
        assert((p + z).len() == (q + z).len());
        assert(p =~= (p + z).take(p.len() as int));
        assert(q =~= (q + z).take(p.len() as int));
        text::encoding_is_injective(a.own_hashes()[n].hash, b.own_hashes()[n].hash);
    }
    key_is_of_digested(a, x);
    key_is_of_digested(b, x);
}

} // verus!
