//! Counting in lists of indices.
use vstd::prelude::*;

verus! {

/// How often `x` stands in `s`.
pub open spec fn occurrences(s: Seq<usize>, x: usize) -> nat
    decreases s.len(),
{
    if s.len() == 0 {
        0
    } else {
        occurrences(s.drop_last(), x) + if s.last() == x { 1nat } else { 0nat }
    }
}

/// How many places of `s` hold something outside `p`.
pub open spec fn missing(s: Seq<usize>, p: Set<usize>) -> nat
    decreases s.len(),
{
    if s.len() == 0 {
        0
    } else {
        missing(s.drop_last(), p) + if p.contains(s.last()) { 0nat } else { 1nat }
    }
}

/// One place more.
pub proof fn occurrences_step(s: Seq<usize>, i: int, x: usize)
    requires
        0 <= i < s.len(),
    ensures
        occurrences(s.take(i + 1), x) == occurrences(s.take(i), x) + if s[i] == x { 1nat } else { 0nat },
{
    assert(s.take(i + 1).drop_last() =~= s.take(i));
}

/// A prefix holds `x` at most as often as the whole.
pub proof fn occurrences_of_prefix(s: Seq<usize>, i: int, x: usize)
    requires
        0 <= i <= s.len(),
    ensures
        occurrences(s.take(i), x) <= occurrences(s, x),
    decreases s.len() - i,
{
    if i < s.len() {
        occurrences_step(s, i, x);
        occurrences_of_prefix(s, i + 1, x);
    } else {
        assert(s.take(i) =~= s);
    }
}

/// What occurs is contained, and the other way round.
pub proof fn occurrences_and_contains(s: Seq<usize>, x: usize)
    ensures
        occurrences(s, x) > 0 <==> s.contains(x),
    decreases s.len(),
{
    if s.len() > 0 {
        occurrences_and_contains(s.drop_last(), x);
        if s.last() == x {
            assert(s[s.len() - 1] == x);
        } else if s.contains(x) {
            let i = choose|i: int| 0 <= i < s.len() && s[i] == x;
            assert(s.drop_last()[i] == x);
        } else if s.drop_last().contains(x) {
            let i = choose|i: int| 0 <= i < s.drop_last().len() && s.drop_last()[i] == x;
            assert(s[i] == x);
        }
    }
}

/// Another member takes away the places that hold it.
pub proof fn missing_less(s: Seq<usize>, p: Set<usize>, x: usize)
    requires
        !p.contains(x),
    ensures
        missing(s, p) == missing(s, p.insert(x)) + occurrences(s, x),
    decreases s.len(),
{
    if s.len() > 0 {
        missing_less(s.drop_last(), p, x);
    }
}

/// Nothing is missing exactly if all is in the set.
pub proof fn missing_none(s: Seq<usize>, p: Set<usize>)
    ensures
        missing(s, p) == 0 <==> (forall|i: int| 0 <= i < s.len() ==> p.contains(#[trigger] s[i])),
        missing(s, p) <= s.len(),
    decreases s.len(),
{
    if s.len() > 0 {
        missing_none(s.drop_last(), p);
        if missing(s, p) == 0 {
            assert forall|i: int| 0 <= i < s.len() implies p.contains(#[trigger] s[i]) by {
                if i < s.len() - 1 {
                    assert(s.drop_last()[i] == s[i]);
                }
            }
        }
        if forall|i: int| 0 <= i < s.len() ==> p.contains(#[trigger] s[i]) {
            assert forall|i: int| 0 <= i < s.drop_last().len() implies p.contains(
                #[trigger] s.drop_last()[i],
            ) by {
                assert(s[i] == s.drop_last()[i]);
            }
            assert(p.contains(s[s.len() - 1]));
        }
    }
}

/// With an empty set every place is missing.
pub proof fn missing_all(s: Seq<usize>)
    ensures
        missing(s, Set::empty()) == s.len(),
    decreases s.len(),
{
    if s.len() > 0 {
        missing_all(s.drop_last());
    }
}

/// Where a prefix holds `x` as often as the whole, it does not come again.
pub proof fn no_more(s: Seq<usize>, i: int, m: int, x: usize)
    requires
        0 <= i <= m < s.len(),
        occurrences(s.take(i), x) == occurrences(s, x),
    ensures
        s[m] != x,
{
    occurrences_step(s, m, x);
    occurrences_of_prefix(s, m + 1, x);
    let t = s.take(m);
    occurrences_of_prefix(t, i, x);
    assert(t.take(i) =~= s.take(i));
}

/// How many places of a list hold `k`.
pub open spec fn tally<T>(s: Seq<T>, k: T) -> nat
    decreases s.len(),
{
    if s.len() == 0 {
        0
    } else {
        tally(s.drop_last(), k) + if s.last() == k { 1nat } else { 0nat }
    }
}

/// What one changed place does to a tally.
pub proof fn tally_update<T>(s: Seq<T>, i: int, v: T, k: T)
    requires
        0 <= i < s.len(),
    ensures
        tally(s.update(i, v), k) + (if s[i] == k { 1nat } else { 0nat }) == tally(s, k) + (if v == k {
            1nat
        } else {
            0nat
        }),
    decreases s.len(),
{
    let t = s.update(i, v);
    if i == s.len() - 1 {
        assert(t.drop_last() =~= s.drop_last());
    } else {
        tally_update(s.drop_last(), i, v, k);
        assert(t.drop_last() =~= s.drop_last().update(i, v));
    }
}

/// A tally of zero means that no place holds the value.
pub proof fn tally_none<T>(s: Seq<T>, k: T)
    ensures
        tally(s, k) == 0 <==> !s.contains(k),
        tally(s, k) <= s.len(),
    decreases s.len(),
{
    if s.len() > 0 {
        tally_none(s.drop_last(), k);
        if s.last() == k {
            assert(s[s.len() - 1] == k);
        }
        if s.drop_last().contains(k) {
            let i = choose|i: int| 0 <= i < s.drop_last().len() && s.drop_last()[i] == k;
            assert(s[i] == k);
        }
        if s.contains(k) && s.last() != k {
            let i = choose|i: int| 0 <= i < s.len() && s[i] == k;
            assert(s.drop_last()[i] == k);
        }
    }
}

/// Two lists that hold a value at the same places hold it equally often.
pub proof fn tally_same<T>(s: Seq<T>, t: Seq<T>, k: T)
    requires
        s.len() == t.len(),
        forall|i: int| 0 <= i < s.len() ==> (#[trigger] s[i] == k <==> t[i] == k),
    ensures
        tally(s, k) == tally(t, k),
    decreases s.len(),
{
    if s.len() > 0 {
        let a = s.drop_last();
        let b = t.drop_last();
        assert forall|i: int| 0 <= i < a.len() implies (#[trigger] a[i] == k <==> b[i] == k) by {
            assert(a[i] == s[i]);
        }
        tally_same(a, b, k);
        assert(s[s.len() - 1] == k <==> t[s.len() - 1] == k);
    }
}

} // verus!
