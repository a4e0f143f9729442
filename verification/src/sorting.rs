//! Sorting of strings.
use crate::strmap;
use crate::strmap::Side;
use vstd::prelude::*;
use vstd::relations::*;
use vstd::utf8::*;

verus! {

/// `a` does not come after `b`.
pub open spec fn str_le(a: Seq<char>, b: Seq<char>) -> bool {
    !strmap::str_lt(b, a)
}

/// Some strings in ascending order, with their repetitions.
pub open spec fn sorted(s: Seq<Seq<char>>) -> Seq<Seq<char>> {
    s.sort_by(|a: Seq<char>, b: Seq<char>| str_le(a, b))
}

proof fn bytes_total_from(a: Seq<u8>, b: Seq<u8>, k: int)
    requires
        0 <= k <= a.len(),
        k <= b.len(),
        forall|i: int| 0 <= i < k ==> a[i] == b[i],
    ensures
        strmap::bytes_lt(a, b) || strmap::bytes_lt(b, a) || a == b,
    decreases a.len() - k,
{
    if k == a.len() || k == b.len() {
        if k == a.len() && k == b.len() {
            assert(a =~= b);
        } else if k == a.len() {
            assert(strmap::bytes_lt_at(a, b, k));
        } else {
            assert(strmap::bytes_lt_at(b, a, k));
        }
    } else if a[k] < b[k] {
        assert(strmap::bytes_lt_at(a, b, k));
    } else if b[k] < a[k] {
        assert(strmap::bytes_lt_at(b, a, k));
    } else {
        bytes_total_from(a, b, k + 1);
    }
}

/// Of two different byte strings one comes first.
pub proof fn bytes_lt_total(a: Seq<u8>, b: Seq<u8>)
    ensures
        strmap::bytes_lt(a, b) || strmap::bytes_lt(b, a) || a == b,
{
    bytes_total_from(a, b, 0);
}

/// Of two different strings one comes first.
pub proof fn str_lt_total(a: Seq<char>, b: Seq<char>)
    ensures
        strmap::str_lt(a, b) || strmap::str_lt(b, a) || a == b,
{
    bytes_lt_total(encode_utf8(a), encode_utf8(b));
    crate::text::encoding_is_injective(a, b);
}

/// `str_le` is a total order.
pub proof fn str_le_is_total()
    ensures
        total_ordering(|a: Seq<char>, b: Seq<char>| str_le(a, b)),
{
    let r = |a: Seq<char>, b: Seq<char>| str_le(a, b);
    assert forall|x: Seq<char>| #[trigger] r(x, x) by {
        strmap::str_lt_asymmetric(x, x);
    }
    assert forall|x: Seq<char>, y: Seq<char>| #[trigger] r(x, y) && #[trigger] r(y, x) implies x
        == y by {
        str_lt_total(x, y);
    }
    assert forall|x: Seq<char>, y: Seq<char>, z: Seq<char>| #[trigger]
        r(x, y) && #[trigger] r(y, z) implies r(x, z) by {
        if strmap::str_lt(z, x) {
            str_lt_total(y, z);
            str_lt_total(x, y);
            if strmap::str_lt(x, y) && strmap::str_lt(z, x) {
                strmap::str_lt_transitive(z, x, y);
            }
        }
    }
    assert forall|x: Seq<char>, y: Seq<char>| #[trigger] r(x, y) || #[trigger] r(y, x) by {
        strmap::str_lt_asymmetric(x, y);
    }
}

/// What is in order and holds the same strings is the sorted list.
pub proof fn sorted_is_unique(t: Seq<Seq<char>>, s: Seq<Seq<char>>)
    requires
        forall|i: int, j: int| 0 <= i < j < t.len() ==> str_le(#[trigger] t[i], #[trigger] t[j]),
        t.to_multiset() == s.to_multiset(),
    ensures
        t == sorted(s),
{
    let r = |a: Seq<char>, b: Seq<char>| str_le(a, b);
    str_le_is_total();
    s.lemma_sort_by_ensures(r);
    assert(sorted_by(t, r));
    vstd::seq_lib::lemma_sorted_unique(t, sorted(s), r);
}

/// Sorting does not depend on the order in which the strings come.
pub proof fn sorting_forgets_order(a: Seq<Seq<char>>, b: Seq<Seq<char>>)
    requires
        a.to_multiset() == b.to_multiset(),
    ensures
        sorted(a) == sorted(b),
{
    let r = |a: Seq<char>, b: Seq<char>| str_le(a, b);
    str_le_is_total();
    a.lemma_sort_by_ensures(r);
    b.lemma_sort_by_ensures(r);
    vstd::seq_lib::lemma_sorted_unique(sorted(a), sorted(b), r);
}

/// Sorts strings.
pub fn sort(v: Vec<String>) -> (r: Vec<String>)
    ensures
        r.deep_view() == sorted(v.deep_view()),
{
    let mut out: Vec<String> = Vec::new();
    let ghost all = v.deep_view();
    assert(out.deep_view() =~= all.take(0));
    for i in 0..v.len()
        invariant
            all == v.deep_view(),
            out@.len() == i,
            out.deep_view().to_multiset() == all.take(i as int).to_multiset(),
            forall|a: int, b: int|
                0 <= a < b < out@.len() ==> str_le(
                    #[trigger] out.deep_view()[a],
                    #[trigger] out.deep_view()[b],
                ),
    {
        let ghost before = out.deep_view();
        let x = v[i].clone();
        let mut k: usize = out.len();
        while k > 0 && strmap::side_of(x.as_str(), out[k - 1].as_str()) == Side::Before
            invariant
                k <= out@.len(),
                before == out.deep_view(),
                forall|a: int| k <= a < out@.len() ==> strmap::str_lt(x@, #[trigger] before[a]),
            decreases k,
        {
            assert(before[k - 1] == out@[k - 1]@);
            k = k - 1;
        }
        assert(k > 0 ==> before[k - 1] == out@[k - 1]@);
        out.insert(k, x);
        proof {
            assert(out.deep_view() =~= before.insert(k as int, x@));
            vstd::seq_lib::to_multiset_insert(before, k as int, x@);
            assert(all.take(i + 1) =~= all.take(i as int).push(x@));
            all.take(i as int).to_multiset_ensures();
            assert forall|a: int, b: int| 0 <= a < b < out@.len() implies str_le(
                #[trigger] out.deep_view()[a],
                #[trigger] out.deep_view()[b],
            ) by {
                str_le_is_total();
                let r = |p: Seq<char>, q: Seq<char>| str_le(p, q);
                if b < k {
                    assert(str_le(before[a], before[b]));
                } else if b == k {
                    assert(r(before[a], before[k - 1]));
                    assert(r(before[k - 1], x@));
                } else if a == k {
                    strmap::str_lt_asymmetric(x@, before[b - 1]);
                } else if a < k {
                    assert(str_le(before[a], before[b - 1]));
                } else {
                    assert(str_le(before[a - 1], before[b - 1]));
                }
            }
        }
    }
    proof {
        assert(all.take(all.len() as int) =~= all);
        sorted_is_unique(out.deep_view(), all);
    }
    out
}

/// The elements of a finite set as a list, none twice.
proof fn set_listing_distinct(d: Set<Seq<char>>)
    requires
        d.finite(),
    ensures
        d.to_seq().no_duplicates(),
        d.to_seq().to_set() == d,
    decreases d.len(),
{
    d.lemma_to_seq_to_set_id();
    if d.len() > 0 {
        let x = d.choose();
        let r = d.remove(x);
        set_listing_distinct(r);
        let s = d.to_seq();
        let t = r.to_seq();
        assert(s == Seq::<Seq<char>>::empty().push(x) + t);
        assert(!t.contains(x)) by {
            if t.contains(x) {
                assert(t.to_set().contains(x));
            }
        }
        assert forall|i: int, j: int| 0 <= i < s.len() && 0 <= j < s.len() && i != j implies s[i]
            != s[j] by {
            if i == 0 {
                assert(s[j] == t[j - 1]);
            } else if j == 0 {
                assert(s[i] == t[i - 1]);
            } else {
                assert(s[i] == t[i - 1] && s[j] == t[j - 1]);
            }
        }
    }
}

/// Every finite map has its pairs in ascending order.
pub proof fn finite_map_is_listed<V>(m: Map<Seq<char>, V>)
    requires
        m.dom().finite(),
    ensures
        strmap::ascending(strmap::listing(m)),
        strmap::as_map(strmap::listing(m)) == m,
{
    let ks = m.dom().to_seq();
    set_listing_distinct(m.dom());
    let r = |a: Seq<char>, b: Seq<char>| str_le(a, b);
    str_le_is_total();
    ks.lemma_sort_by_ensures(r);
    let t = sorted(ks);
    ks.lemma_multiset_has_no_duplicates();
    t.lemma_multiset_has_no_duplicates_conv();
    ks.to_multiset_ensures();
    t.to_multiset_ensures();
    let e = Seq::new(t.len(), |i: int| (t[i], m[t[i]]));
    assert(strmap::ascending(e)) by {
        assert forall|i: int, j: int| 0 <= i < j < e.len() implies strmap::str_lt(
            #[trigger] e[i].0,
            #[trigger] e[j].0,
        ) by {
            assert(r(t[i], t[j]));
            str_lt_total(t[i], t[j]);
        }
    }
    assert forall|k: Seq<char>| strmap::has_key(e, k) <==> m.contains_key(k) by {
        if strmap::has_key(e, k) {
            let i = strmap::key_index(e, k);
            assert(t.contains(t[i]));
            assert(t.to_multiset().count(k) > 0);
            assert(ks.contains(k));
            assert(ks.to_set().contains(k));
        }
        if m.contains_key(k) {
            assert(ks.to_set().contains(k));
            assert(ks.contains(k));
            assert(ks.to_multiset().count(k) > 0);
            assert(t.contains(k));
            let i = choose|i: int| 0 <= i < t.len() && t[i] == k;
            assert(e[i].0 == k);
        }
    }
    assert(strmap::as_map(e) =~= m);
}

} // verus!
