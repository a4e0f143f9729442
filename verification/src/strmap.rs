//! Maps and sets keyed by strings, kept in the order in which Rust compares strings: by their
//! UTF-8 bytes.
use crate::text;
use vstd::prelude::*;
use vstd::utf8::*;

verus! {

/// Byte string `a` comes before `b` because they first differ after `k` bytes.
pub open spec fn bytes_lt_at(a: Seq<u8>, b: Seq<u8>, k: int) -> bool {
    &&& 0 <= k <= a.len()
    &&& k < b.len()
    &&& (forall|i: int| 0 <= i < k ==> a[i] == b[i])
    &&& k == a.len() || a[k] < b[k]
}

/// Byte-wise lexicographic order, a proper prefix being smaller.
pub open spec fn bytes_lt(a: Seq<u8>, b: Seq<u8>) -> bool {
    exists|k: int| bytes_lt_at(a, b, k)
}

/// The order of strings: that of their UTF-8 bytes.
pub open spec fn str_lt(a: Seq<char>, b: Seq<char>) -> bool {
    bytes_lt(encode_utf8(a), encode_utf8(b))
}

/// `bytes_lt` is a strict total order.
pub proof fn bytes_lt_irreflexive(a: Seq<u8>)
    ensures
        !bytes_lt(a, a),
{
}

pub proof fn bytes_lt_transitive(a: Seq<u8>, b: Seq<u8>, c: Seq<u8>)
    requires
        bytes_lt(a, b),
        bytes_lt(b, c),
    ensures
        bytes_lt(a, c),
{
    let k = choose|k: int| bytes_lt_at(a, b, k);
    let l = choose|l: int| bytes_lt_at(b, c, l);
    if k <= l {
        assert(bytes_lt_at(a, c, k));
    } else {
        assert(bytes_lt_at(a, c, l));
    }
}

/// No string is smaller than itself, and two strings are not each smaller than the other.
pub proof fn str_lt_asymmetric(a: Seq<char>, b: Seq<char>)
    ensures
        !str_lt(a, a),
        str_lt(a, b) ==> !str_lt(b, a) && a != b,
{
    if str_lt(a, b) && str_lt(b, a) {
        bytes_lt_transitive(encode_utf8(a), encode_utf8(b), encode_utf8(a));
    }
}

/// The order of strings is transitive.
pub proof fn str_lt_transitive(a: Seq<char>, b: Seq<char>, c: Seq<char>)
    requires
        str_lt(a, b),
        str_lt(b, c),
    ensures
        str_lt(a, c),
{
    bytes_lt_transitive(encode_utf8(a), encode_utf8(b), encode_utf8(c));
}

/// How one string compares with another.
#[derive(Clone, Copy, PartialEq, Eq, Structural)]
pub enum Side {
    Before,
    Same,
    After,
}

/// Compares two strings by their bytes.
pub fn side_of(a: &str, b: &str) -> (r: Side)
    ensures
        r == Side::Before <==> str_lt(a@, b@),
        r == Side::Same <==> a@ == b@,
        r == Side::After <==> str_lt(b@, a@),
{
    let x = a.as_bytes();
    let y = b.as_bytes();
    proof {
        text::encoding_is_injective(a@, b@);
        str_lt_asymmetric(a@, b@);
        str_lt_asymmetric(b@, a@);
    }
    let mut i: usize = 0;
    while i < x.len() && i < y.len()
        invariant
            x@ == encode_utf8(a@),
            y@ == encode_utf8(b@),
            i <= x.len(),
            i <= y.len(),
            forall|j: int| 0 <= j < i ==> x@[j] == y@[j],
            str_lt(a@, b@) ==> !str_lt(b@, a@) && a@ != b@,
            str_lt(b@, a@) ==> !str_lt(a@, b@) && a@ != b@,
        decreases x.len() - i,
    {
        if x[i] < y[i] {
            assert(bytes_lt_at(x@, y@, i as int));
            return Side::Before;
        }
        if y[i] < x[i] {
            assert(bytes_lt_at(y@, x@, i as int));
            return Side::After;
        }
        i = i + 1;
    }
    if i < y.len() {
        assert(bytes_lt_at(x@, y@, i as int));
        Side::Before
    } else if i < x.len() {
        assert(bytes_lt_at(y@, x@, i as int));
        Side::After
    } else {
        assert(x@ =~= y@);
        Side::Same
    }
}

/// The keys of `e` are strictly ascending.
pub open spec fn ascending<V>(e: Seq<(Seq<char>, V)>) -> bool {
    forall|i: int, j: int| 0 <= i < j < e.len() ==> str_lt(#[trigger] e[i].0, #[trigger] e[j].0)
}

/// `k` is one of the keys of `e`.
pub open spec fn has_key<V>(e: Seq<(Seq<char>, V)>, k: Seq<char>) -> bool {
    exists|i: int| 0 <= i < e.len() && #[trigger] e[i].0 == k
}

/// The position of key `k` in `e`.
pub open spec fn key_index<V>(e: Seq<(Seq<char>, V)>, k: Seq<char>) -> int {
    choose|i: int| 0 <= i < e.len() && #[trigger] e[i].0 == k
}

/// The map that a list of pairs stands for.
pub open spec fn as_map<V>(e: Seq<(Seq<char>, V)>) -> Map<Seq<char>, V> {
    Map::new(|k: Seq<char>| has_key(e, k), |k: Seq<char>| e[key_index(e, k)].1)
}

/// The pairs of a map in ascending order of the keys.
pub open spec fn listing<V>(m: Map<Seq<char>, V>) -> Seq<(Seq<char>, V)> {
    choose|e: Seq<(Seq<char>, V)>| ascending(e) && #[trigger] as_map(e) == m
}

/// The keys of a listing.
pub open spec fn keys_of<V>(l: Seq<(Seq<char>, V)>) -> Seq<Seq<char>> {
    Seq::new(l.len(), |i: int| l[i].0)
}

/// One more pair in a list is one more key.
pub proof fn one_more_key<V>(l: Seq<(Seq<char>, V)>, i: int, k: Seq<char>)
    requires
        0 <= i < l.len(),
    ensures
        has_key(l.take(i + 1), k) <==> has_key(l.take(i), k) || l[i].0 == k,
{
    let t = l.take(i);
    let u = l.take(i + 1);
    if has_key(t, k) {
        let j = key_index(t, k);
        assert(u[j].0 == k);
    }
    if has_key(u, k) {
        let j = key_index(u, k);
        if j < i {
            assert(t[j].0 == k);
        }
    }
    assert(u[i].0 == l[i].0);
}

/// In an ascending list a key determines its position.
pub proof fn ascending_index<V>(e: Seq<(Seq<char>, V)>, i: int)
    requires
        ascending(e),
        0 <= i < e.len(),
    ensures
        has_key(e, e[i].0),
        key_index(e, e[i].0) == i,
        as_map(e).contains_key(e[i].0),
        as_map(e)[e[i].0] == e[i].1,
{
    let j = key_index(e, e[i].0);
    str_lt_asymmetric(e[i].0, e[j].0);
    str_lt_asymmetric(e[j].0, e[i].0);
}

/// An ascending list is determined by its map.
pub proof fn ascending_unique<V>(e: Seq<(Seq<char>, V)>, f: Seq<(Seq<char>, V)>)
    requires
        ascending(e),
        ascending(f),
        as_map(e) == as_map(f),
    ensures
        e == f,
    decreases e.len(),
{
    if e.len() == 0 {
        if f.len() > 0 {
            ascending_index(f, 0);
        }
        assert(e =~= f);
    } else if f.len() == 0 {
        ascending_index(e, 0);
    } else {
        let a = e.last();
        let b = f.last();
        ascending_index(e, e.len() - 1);
        ascending_index(f, f.len() - 1);
        let i = key_index(f, a.0);
        let j = key_index(e, b.0);
        assert(a.0 == b.0) by {
            str_lt_asymmetric(a.0, b.0);
        }
        assert(a == b);
        let e1 = e.drop_last();
        let f1 = f.drop_last();
        assert(as_map(e1) =~= as_map(e).remove(a.0)) by {
            drop_last_map(e);
        }
        assert(as_map(f1) =~= as_map(f).remove(a.0)) by {
            drop_last_map(f);
        }
        ascending_unique(e1, f1);
        assert(e =~= e1.push(a));
        assert(f =~= f1.push(b));
    }
}

/// Without its last pair an ascending list stands for the map without the last key.
pub proof fn drop_last_map<V>(e: Seq<(Seq<char>, V)>)
    requires
        ascending(e),
        e.len() > 0,
    ensures
        ascending(e.drop_last()),
        as_map(e.drop_last()) =~= as_map(e).remove(e.last().0),
{
    let e1 = e.drop_last();
    assert(ascending(e1));
    assert forall|k: Seq<char>|
        as_map(e1).contains_key(k) == as_map(e).remove(e.last().0).contains_key(k) by {
        if has_key(e1, k) {
            let i = key_index(e1, k);
            assert(e[i] == e1[i]);
            str_lt_asymmetric(e[i].0, e.last().0);
            assert(has_key(e, k));
        }
        if has_key(e, k) && k != e.last().0 {
            let i = key_index(e, k);
            assert(e1[i] == e[i]);
            assert(has_key(e1, k));
        }
    }
    assert forall|k: Seq<char>| as_map(e1).contains_key(k) implies as_map(e1)[k] == as_map(e)[k] by {
        let i = key_index(e1, k);
        assert(e[i] == e1[i]);
        ascending_index(e, i);
        ascending_index(e1, i);
    }
}

/// One pair more in an ascending list is one key more in its map.
pub proof fn take_map<V>(e: Seq<(Seq<char>, V)>, i: int)
    requires
        ascending(e),
        0 <= i < e.len(),
    ensures
        as_map(e.take(i + 1)) == as_map(e.take(i)).insert(e[i].0, e[i].1),
        !as_map(e.take(i)).contains_key(e[i].0),
        ascending(e.take(i)),
        ascending(e.take(i + 1)),
{
    let f = e.take(i + 1);
    assert(ascending(f));
    assert(f.drop_last() =~= e.take(i));
    drop_last_map(f);
    ascending_index(f, i);
    assert(as_map(f) =~= as_map(e.take(i)).insert(e[i].0, e[i].1));
}

/// The listing of the map of an ascending list is that list.
pub proof fn listing_of<V>(e: Seq<(Seq<char>, V)>)
    requires
        ascending(e),
    ensures
        listing(as_map(e)) == e,
{
    let l = listing(as_map(e));
    ascending_unique(l, e);
}

/// A map from strings to values.
#[derive(Debug)]
pub struct StrMap<V> {
    items: Vec<(String, V)>,
}

impl<V: DeepView> View for StrMap<V> {
    type V = Map<Seq<char>, V::V>;

    closed spec fn view(&self) -> Map<Seq<char>, V::V> {
        as_map(self.items.deep_view())
    }
}

impl<V: DeepView> DeepView for StrMap<V> {
    type V = Map<Seq<char>, V::V>;

    open spec fn deep_view(&self) -> Map<Seq<char>, V::V> {
        self@
    }
}

impl<V> StrMap<V> {
    #[verifier::type_invariant]
    spec fn sorted(&self) -> bool {
        forall|i: int, j: int|
            0 <= i < j < self.items@.len() ==> str_lt(
                #[trigger] self.items@[i].0@,
                #[trigger] self.items@[j].0@,
            )
    }
}

impl<V: DeepView> StrMap<V> {
    /// The pairs in ascending order, which the map determines.
    proof fn pairs(&self)
        requires
            self.sorted(),
        ensures
            ascending(self.items.deep_view()),
            listing(self@) == self.items.deep_view(),
    {
        let e = self.items.deep_view();
        assert forall|i: int, j: int| 0 <= i < j < e.len() implies str_lt(
            #[trigger] e[i].0,
            #[trigger] e[j].0,
        ) by {
            assert(str_lt(self.items@[i].0@, self.items@[j].0@));
        }
        listing_of(e);
    }

    /// The empty map.
    pub fn new() -> (r: Self)
        ensures
            r@ == Map::<Seq<char>, V::V>::empty(),
    {
        let r = StrMap { items: Vec::new() };
        assert(r@ =~= Map::<Seq<char>, V::V>::empty());
        r
    }

    /// The number of keys.
    pub fn len(&self) -> (n: usize)
        ensures
            n == listing(self@).len(),
            ascending(listing(self@)),
            as_map(listing(self@)) == self@,
    {
        proof {
            use_type_invariant(self);
            self.pairs();
        }
        self.items.len()
    }

    /// The `i`-th key in ascending order.
    pub fn key(&self, i: usize) -> (r: &String)
        requires
            i < listing(self@).len(),
        ensures
            r@ == listing(self@)[i as int].0,
    {
        proof {
            use_type_invariant(self);
            self.pairs();
        }
        &self.items[i].0
    }

    /// The keys in ascending order.
    pub fn keys(&self) -> (r: Vec<String>)
        ensures
            r.deep_view() == keys_of(listing(self@)),
    {
        let ghost ks = keys_of(listing(self@));
        let n: usize = self.len();
        let mut v: Vec<String> = Vec::new();
        for i in 0..n
            invariant
                n == listing(self@).len(),
                ks == keys_of(listing(self@)),
                v@.len() == i,
                forall|k: int| 0 <= k < i ==> (#[trigger] v@[k])@ == ks[k],
        {
            v.push(self.key(i).clone());
        }
        assert(v.deep_view() =~= ks);
        v
    }

    /// The value of the `i`-th key in ascending order.
    pub fn value(&self, i: usize) -> (r: &V)
        requires
            i < listing(self@).len(),
        ensures
            r.deep_view() == listing(self@)[i as int].1,
    {
        proof {
            use_type_invariant(self);
            self.pairs();
        }
        &self.items[i].1
    }

    /// The place of `k`: its position, or where it belongs.
    fn search(&self, k: &str) -> (r: (bool, usize))
        requires
            self.sorted(),
        ensures
            r.1 <= self.items@.len(),
            forall|i: int| 0 <= i < r.1 ==> str_lt(#[trigger] self.items@[i].0@, k@),
            r.0 ==> r.1 < self.items@.len() && self.items@[r.1 as int].0@ == k@,
            !r.0 ==> forall|i: int|
                r.1 <= i < self.items@.len() ==> str_lt(k@, #[trigger] self.items@[i].0@),
    {
        let mut lo: usize = 0;
        let mut hi: usize = self.items.len();
        while lo < hi
            invariant
                self.sorted(),
                lo <= hi <= self.items@.len(),
                forall|i: int| 0 <= i < lo ==> str_lt(#[trigger] self.items@[i].0@, k@),
                forall|i: int|
                    hi <= i < self.items@.len() ==> str_lt(k@, #[trigger] self.items@[i].0@),
            decreases hi - lo,
        {
            let mid = lo + (hi - lo) / 2;
            match side_of(self.items[mid].0.as_str(), k) {
                Side::Same => {
                    assert(forall|i: int|
                        0 <= i < mid ==> str_lt(#[trigger] self.items@[i].0@, self.items@[mid as int].0@));
                    return (true, mid);
                },
                Side::Before => {
                    assert forall|i: int| 0 <= i < mid + 1 implies str_lt(
                        #[trigger] self.items@[i].0@,
                        k@,
                    ) by {
                        if i < mid {
                            str_lt_transitive(self.items@[i].0@, self.items@[mid as int].0@, k@);
                        }
                    }
                    lo = mid + 1;
                },
                Side::After => {
                    assert forall|i: int| mid <= i < self.items@.len() implies str_lt(
                        k@,
                        #[trigger] self.items@[i].0@,
                    ) by {
                        if i > mid {
                            str_lt_transitive(k@, self.items@[mid as int].0@, self.items@[i].0@);
                        }
                    }
                    hi = mid;
                },
            }
        }
        (false, lo)
    }

    /// The value of a key.
    pub fn get(&self, k: &str) -> (r: Option<&V>)
        ensures
            match r {
                Some(v) => self@.contains_key(k@) && v.deep_view() == self@[k@],
                None => !self@.contains_key(k@),
            },
    {
        proof {
            use_type_invariant(self);
            self.pairs();
        }
        let (found, i) = self.search(k);
        let ghost e = self.items.deep_view();
        if found {
            proof {
                ascending_index(e, i as int);
            }
            Some(&self.items[i].1)
        } else {
            proof {
                if has_key(e, k@) {
                    let j = key_index(e, k@);
                    assert(e[j].0 == self.items@[j].0@);
                    str_lt_asymmetric(k@, k@);
                }
            }
            None
        }
    }

    /// The place of a key in ascending order.
    pub fn position(&self, k: &str) -> (r: Option<usize>)
        ensures
            match r {
                Some(i) => i < listing(self@).len() && listing(self@)[i as int].0 == k@,
                None => !self@.contains_key(k@),
            },
    {
        proof {
            use_type_invariant(self);
            self.pairs();
        }
        let (found, i) = self.search(k);
        let ghost e = self.items.deep_view();
        if found {
            Some(i)
        } else {
            proof {
                if has_key(e, k@) {
                    let j = key_index(e, k@);
                    assert(e[j].0 == self.items@[j].0@);
                    str_lt_asymmetric(k@, k@);
                }
            }
            None
        }
    }

    /// Takes the last pair out.
    pub fn pop_last(&mut self) -> (r: Option<(String, V)>)
        ensures
            match r {
                Some(p) => {
                    &&& listing(old(self)@).len() > 0
                    &&& (p.0@, p.1.deep_view()) == listing(old(self)@).last()
                    &&& final(self)@ == as_map(listing(old(self)@).drop_last())
                    &&& listing(final(self)@) == listing(old(self)@).drop_last()
                },
                None => listing(old(self)@).len() == 0 && final(self)@ == old(self)@,
            },
    {
        proof {
            use_type_invariant(&*self);
            self.pairs();
        }
        let ghost e = self.items.deep_view();
        let ghost old_items = self.items@;
        let mut items: Vec<(String, V)> = Vec::new();
        std::mem::swap(&mut items, &mut self.items);
        let r = items.pop();
        proof {
            assert forall|a: int, b: int| 0 <= a < b < items@.len() implies str_lt(
                #[trigger] items@[a].0@,
                #[trigger] items@[b].0@,
            ) by {
                assert(items@[a] == old_items[a] && items@[b] == old_items[b]);
            }
        }
        self.items = items;
        proof {
            self.pairs();
            if old_items.len() > 0 {
                assert(self.items.deep_view() =~= e.drop_last());
            } else {
                assert(self.items.deep_view() =~= e);
            }
        }
        r
    }

    /// Whether a key is present.
    pub fn contains_key(&self, k: &str) -> (r: bool)
        ensures
            r == self@.contains_key(k@),
    {
        self.get(k).is_some()
    }

    /// Sets the value of a key.
    pub fn insert(&mut self, k: String, v: V)
        ensures
            final(self)@ == old(self)@.insert(k@, v.deep_view()),
    {
        proof {
            use_type_invariant(&*self);
            self.pairs();
        }
        let (found, i) = self.search(k.as_str());
        let ghost e = self.items.deep_view();
        let ghost kv = (k@, v.deep_view());
        let ghost old_items = self.items@;
        let mut items: Vec<(String, V)> = Vec::new();
        std::mem::swap(&mut items, &mut self.items);
        if found {
            let _ = items.remove(i);
        }
        items.insert(i, (k, v));
        let ghost f = items.deep_view();
        proof {
            assert(f[i as int] == kv);
            assert forall|a: int, b: int| 0 <= a < b < items@.len() implies str_lt(
                #[trigger] items@[a].0@,
                #[trigger] items@[b].0@,
            ) by {
                let shift = if found { 0int } else { 1int };
                if b < i {
                    assert(items@[a] == old_items[a] && items@[b] == old_items[b]);
                } else if b == i {
                    assert(items@[a] == old_items[a]);
                } else if a < i {
                    assert(items@[a] == old_items[a] && items@[b] == old_items[b - shift]);
                } else if a == i {
                    assert(items@[b] == old_items[b - shift]);
                } else {
                    assert(items@[a] == old_items[a - shift] && items@[b] == old_items[b - shift]);
                }
            }
        }
        self.items = items;
        proof {
            self.pairs();
            assert(as_map(f) =~= as_map(e).insert(k@, kv.1)) by {
                let shift = if found { 0int } else { 1int };
                assert forall|x: Seq<char>|
                    as_map(f).contains_key(x) == as_map(e).insert(k@, kv.1).contains_key(x) by {
                    if has_key(f, x) && x != k@ {
                        let j = key_index(f, x);
                        let l = if j < i { j } else { j - shift };
                        assert(e[l] == f[j]);
                        assert(has_key(e, x));
                    }
                    if has_key(e, x) && x != k@ {
                        let j = key_index(e, x);
                        let l = if j < i { j } else { j + shift };
                        assert(e[j] == f[l]);
                        assert(has_key(f, x));
                    }
                    if x == k@ {
                        assert(f[i as int].0 == x);
                    }
                }
                assert forall|x: Seq<char>| as_map(f).contains_key(x) implies as_map(f)[x]
                    == as_map(e).insert(k@, kv.1)[x] by {
                    ascending_index(f, i as int);
                    if x != k@ {
                        let j = key_index(f, x);
                        let l = if j < i { j } else { j - shift };
                        assert(e[l] == f[j]);
                        ascending_index(e, l);
                        ascending_index(f, j);
                    }
                }
            }
        }
    }
}

/// The map of some pairs; of two pairs with the same key the later one counts.
pub open spec fn collected<V>(pairs: Seq<(Seq<char>, V)>) -> Map<Seq<char>, V>
    decreases pairs.len(),
{
    if pairs.len() == 0 {
        Map::empty()
    } else {
        collected(pairs.drop_last()).insert(pairs.last().0, pairs.last().1)
    }
}

/// A collected map is finite.
pub proof fn collected_is_finite<V>(pairs: Seq<(Seq<char>, V)>)
    ensures
        collected(pairs).dom().finite(),
    decreases pairs.len(),
{
    if pairs.len() > 0 {
        collected_is_finite(pairs.drop_last());
    }
}

/// Collects pairs into a map; of two pairs with the same key the later one counts.
pub fn collect<V: DeepView>(pairs: Vec<(String, V)>) -> (r: StrMap<V>)
    ensures
        r@ == collected(pairs.deep_view()),
{
    let ghost raw = pairs@;
    let ghost all = pairs.deep_view();
    let mut m: StrMap<V> = StrMap::new();
    assert(all.take(0) =~= Seq::empty());
    for pair in it: pairs
        invariant
            it.seq() == raw,
            all.len() == raw.len(),
            forall|i: int| 0 <= i < raw.len() ==> (#[trigger] raw[i]).deep_view() == all[i],
            m@ == collected(all.take(it.index() as int)),
    {
        proof {
            let i = it.index() as int;
            assert(pair.deep_view() == all[i]);
            assert(all.take(i + 1).drop_last() =~= all.take(i));
        }
        m.insert(pair.0, pair.1);
    }
    assert(all.take(all.len() as int) =~= all);
    m
}

/// The strings of a set, in ascending order.
pub open spec fn in_order(s: Set<Seq<char>>) -> Seq<Seq<char>> {
    keys_of(listing(Map::new(|k: Seq<char>| s.contains(k), |k: Seq<char>| true)))
}

/// A set of strings.
#[derive(Debug)]
pub struct StrSet {
    items: StrMap<bool>,
}

impl View for StrSet {
    type V = Set<Seq<char>>;

    closed spec fn view(&self) -> Set<Seq<char>> {
        self.items@.dom()
    }
}

impl StrSet {
    /// The empty set.
    pub fn new() -> (r: Self)
        ensures
            r@ == Set::<Seq<char>>::empty(),
    {
        StrSet { items: StrMap::new() }
    }

    /// Whether a string is in the set.
    pub fn contains(&self, k: &str) -> (r: bool)
        ensures
            r == self@.contains(k@),
    {
        self.items.contains_key(k)
    }

    /// Adds a string, and tells whether it was new.
    pub fn insert(&mut self, k: String) -> (r: bool)
        ensures
            final(self)@ == old(self)@.insert(k@),
            r == !old(self)@.contains(k@),
    {
        let fresh = !self.items.contains_key(k.as_str());
        self.items.insert(k, true);
        assert(self@ =~= old(self)@.insert(k@));
        fresh
    }

    /// The strings of the set, in ascending order.
    pub fn items(&self) -> (r: Vec<String>)
        ensures
            r.deep_view() == in_order(self@),
    {
        let ghost l = listing(self.items@);
        let n: usize = self.items.len();
        proof {
            let m = Map::new(|k: Seq<char>| self@.contains(k), |k: Seq<char>| true);
            let t = Seq::new(l.len(), |i: int| (l[i].0, true));
            assert(ascending(t)) by {
                assert forall|i: int, j: int| 0 <= i < j < t.len() implies str_lt(
                    #[trigger] t[i].0,
                    #[trigger] t[j].0,
                ) by {
                    assert(str_lt(l[i].0, l[j].0));
                }
            }
            assert forall|k: Seq<char>| has_key(t, k) <==> m.contains_key(k) by {
                assert(as_map(l).contains_key(k) <==> has_key(l, k));
                if has_key(t, k) {
                    assert(l[key_index(t, k)].0 == k);
                }
                if has_key(l, k) {
                    assert(t[key_index(l, k)].0 == k);
                }
            }
            assert(as_map(t) =~= m);
            listing_of(t);
            assert(keys_of(t) =~= keys_of(l));
        }
        self.items.keys()
    }
}

/// Byte strings are ordered by the first byte in which they differ, and one comes before all that it
/// begins.
pub proof fn the_first_difference_decides(p: Seq<u8>, x: u8, y: u8, s: Seq<u8>, t: Seq<u8>)
    ensures
        x < y ==> bytes_lt(p.push(x) + s, p.push(y) + t),
        s.len() > 0 ==> bytes_lt(p, p + s),
{
    let a = p.push(x) + s;
    let b = p.push(y) + t;
    if x < y {
        assert(bytes_lt_at(a, b, p.len() as int));
    }
    if s.len() > 0 {
        assert(bytes_lt_at(p, p + s, p.len() as int));
    }
}

} // verus!
