//! What a directory tree holds, and the bytes that stand for it in a digest.
use crate::digest;
use crate::sorting;
use crate::strmap;
use vstd::prelude::*;

verus! {

/// An entry of a directory: another directory, a symbolic link with its target, a file with its
/// contents, or something that could not be told. A target or contents that cannot be read are
/// missing.
pub enum TreeEntry {
    Dir { name: Vec<u8>, entries: Vec<TreeEntry> },
    Link { name: Vec<u8>, target: Option<Vec<u8>> },
    File { name: Vec<u8>, contents: Option<Vec<u8>> },
    Unknown { name: Vec<u8> },
}

impl TreeEntry {
    /// The name of the entry.
    pub open spec fn label(self) -> Seq<u8> {
        match self {
            TreeEntry::Dir { name, .. } => name@,
            TreeEntry::Link { name, .. } => name@,
            TreeEntry::File { name, .. } => name@,
            TreeEntry::Unknown { name } => name@,
        }
    }

    /// Whether the entry counts: its name does not start with a dot and its kind is known.
    pub open spec fn counts(self) -> bool {
        !(self.label().len() > 0 && self.label()[0] == 46u8) && !(self is Unknown)
    }

    fn name(&self) -> (r: &Vec<u8>)
        ensures
            r@ == self.label(),
    {
        match self {
            TreeEntry::Dir { name, .. } => name,
            TreeEntry::Link { name, .. } => name,
            TreeEntry::File { name, .. } => name,
            TreeEntry::Unknown { name } => name,
        }
    }
}

/// The path of an entry below the directory at `prefix`.
pub open spec fn below(prefix: Seq<u8>, name: Seq<u8>) -> Seq<u8> {
    if prefix.len() == 0 {
        name
    } else {
        prefix + seq![47u8] + name
    }
}

/// Puts a named text into a list in order of names, behind those of the same name.
pub open spec fn placed(s: Seq<(Seq<u8>, Seq<u8>)>, x: (Seq<u8>, Seq<u8>)) -> Seq<
    (Seq<u8>, Seq<u8>),
>
    decreases s.len(),
{
    if s.len() == 0 || !strmap::bytes_lt(x.0, s.last().0) {
        s.push(x)
    } else {
        placed(s.drop_last(), x).push(s.last())
    }
}

/// All texts of a list, one behind the other.
pub open spec fn chained(s: Seq<(Seq<u8>, Seq<u8>)>) -> Seq<u8>
    decreases s.len(),
{
    if s.len() == 0 {
        Seq::empty()
    } else {
        chained(s.drop_last()) + s.last().1
    }
}

/// The bytes of an entry: its path, a zero byte, and what it holds.
pub open spec fn entry_bytes(e: TreeEntry, prefix: Seq<u8>) -> Seq<u8>
    decreases e, 0int,
{
    let rel = below(prefix, e.label());
    rel + seq![0u8] + match e {
        TreeEntry::Dir { name, entries } => dir_bytes(entries@, rel),
        TreeEntry::Link { name, target } => match target {
            Some(t) => t@,
            None => Seq::empty(),
        },
        TreeEntry::File { name, contents } => match contents {
            Some(c) => c@,
            None => Seq::empty(),
        },
        TreeEntry::Unknown { name } => Seq::empty(),
    }
}

/// The bytes of the entries that count, each with its name, in order of names.
pub open spec fn ordered(es: Seq<TreeEntry>, prefix: Seq<u8>) -> Seq<(Seq<u8>, Seq<u8>)>
    decreases es, 0int,
{
    if es.len() == 0 {
        Seq::empty()
    } else {
        let rest = ordered(es.drop_last(), prefix);
        let e = es[es.len() - 1];
        if e.counts() {
            placed(rest, (e.label(), entry_bytes(e, prefix)))
        } else {
            rest
        }
    }
}

/// The bytes of a directory: those of its entries in order of their names.
pub open spec fn dir_bytes(es: Seq<TreeEntry>, prefix: Seq<u8>) -> Seq<u8>
    decreases es, 1int,
{
    chained(ordered(es, prefix))
}

fn bytes_before(a: &[u8], b: &[u8]) -> (r: bool)
    ensures
        r == strmap::bytes_lt(a@, b@),
{
    let mut i: usize = 0;
    while i < a.len() && i < b.len()
        invariant
            i <= a.len(),
            i <= b.len(),
            forall|j: int| 0 <= j < i ==> a@[j] == b@[j],
        decreases a.len() - i,
    {
        if a[i] < b[i] {
            assert(strmap::bytes_lt_at(a@, b@, i as int));
            return true;
        }
        if b[i] < a[i] {
            return false;
        }
        i = i + 1;
    }
    if i < b.len() {
        assert(strmap::bytes_lt_at(a@, b@, i as int));
        return true;
    }
    false
}

proof fn placed_at(s: Seq<(Seq<u8>, Seq<u8>)>, x: (Seq<u8>, Seq<u8>), k: int)
    requires
        0 <= k <= s.len(),
        forall|i: int| k <= i < s.len() ==> strmap::bytes_lt(x.0, (#[trigger] s[i]).0),
        k > 0 ==> !strmap::bytes_lt(x.0, s[k - 1].0),
    ensures
        placed(s, x) == s.insert(k, x),
    decreases s.len(),
{
    if k < s.len() {
        assert(s.last() == s[s.len() - 1]);
        placed_at(s.drop_last(), x, k);
        assert(s.drop_last().insert(k, x).push(s.last()) =~= s.insert(k, x));
    } else {
        assert(s.insert(k, x) =~= s.push(x));
    }
}

fn collect_entry(e: &TreeEntry, prefix: &Vec<u8>) -> (r: Vec<u8>)
    ensures
        r@ == entry_bytes(*e, prefix@),
    decreases *e, 0int,
{
    let mut rel: Vec<u8> = Vec::new();
    if prefix.len() > 0 {
        digest::push_bytes(&mut rel, prefix.as_slice());
        rel.push(47u8);
    }
    digest::push_bytes(&mut rel, e.name().as_slice());
    assert(rel@ =~= below(prefix@, e.label()));
    let mut out: Vec<u8> = Vec::new();
    digest::push_bytes(&mut out, rel.as_slice());
    out.push(0u8);
    match e {
        TreeEntry::Dir { name, entries } => {
            let inner = collect_dir(entries, &rel);
            digest::push_bytes(&mut out, inner.as_slice());
        },
        TreeEntry::Link { name, target } => match target {
            Some(t) => {
                digest::push_bytes(&mut out, t.as_slice());
            },
            None => {},
        },
        TreeEntry::File { name, contents } => match contents {
            Some(c) => {
                digest::push_bytes(&mut out, c.as_slice());
            },
            None => {},
        },
        TreeEntry::Unknown { name } => {},
    }
    assert(out@ =~= entry_bytes(*e, prefix@));
    out
}

pub(crate) fn collect_dir(es: &Vec<TreeEntry>, prefix: &Vec<u8>) -> (r: Vec<u8>)
    ensures
        r@ == dir_bytes(es@, prefix@),
    decreases *es, 1int,
{
    let mut list: Vec<(Vec<u8>, Vec<u8>)> = Vec::new();
    assert(list.deep_view() =~= ordered(es@.take(0), prefix@));
    for i in 0..es.len()
        invariant
            list.deep_view() == ordered(es@.take(i as int), prefix@),
    {
        let e = &es[i];
        let ghost before = list.deep_view();
        proof {
            assert(es@.take(i + 1).drop_last() =~= es@.take(i as int));
            assert(es@.take(i + 1)[i as int] == *e);
        }
        let name = e.name();
        let hidden = name.len() > 0 && name[0] == 46u8;
        let known = match e {
            TreeEntry::Unknown { .. } => false,
            _ => true,
        };
        if !hidden && known {
            let bytes = collect_entry(e, prefix);
            let mut k: usize = list.len();
            while k > 0 && bytes_before(name.as_slice(), list[k - 1].0.as_slice())
                invariant
                    k <= list@.len(),
                    before == list.deep_view(),
                    forall|a: int|
                        k <= a < list@.len() ==> strmap::bytes_lt(name@, (#[trigger] before[a]).0),
                decreases k,
            {
                assert(before[k - 1].0 =~= list@[k - 1].0@);
                k = k - 1;
            }
            proof {
                if k > 0 {
                    assert(before[k - 1].0 =~= list@[k - 1].0@);
                }
                placed_at(before, (name@, bytes@), k as int);
            }
            let mut label: Vec<u8> = Vec::new();
            digest::push_bytes(&mut label, name.as_slice());
            assert(label@ =~= name@);
            list.insert(k, (label, bytes));
            assert(list@[k as int].0.deep_view() =~= name@);
            assert(list@[k as int].1.deep_view() =~= bytes@);
            assert(list.deep_view() =~= before.insert(k as int, (name@, bytes@)));
        }
    }
    assert(es@.take(es@.len() as int) =~= es@);
    let mut out: Vec<u8> = Vec::new();
    let ghost all = list.deep_view();
    for i in 0..list.len()
        invariant
            all == list.deep_view(),
            out@ == chained(all.take(i as int)),
    {
        digest::push_bytes(&mut out, list[i].1.as_slice());
        proof {
            assert(all.take(i + 1).drop_last() =~= all.take(i as int));
            assert(all[i as int].1 =~= list@[i as int].1@);
        }
    }
    assert(all.take(all.len() as int) =~= all);
    out
}

/// An entry that does not count, as one whose name starts with a dot, does not move the bytes of its
/// directory, wherever it stands.
pub proof fn hidden_entries_do_not_count(
    es: Seq<TreeEntry>,
    k: int,
    e: TreeEntry,
    prefix: Seq<u8>,
)
    requires
        0 <= k <= es.len(),
        !e.counts(),
    ensures
        dir_bytes(es.insert(k, e), prefix) == dir_bytes(es, prefix),
{
    hidden_entry(es, k, e, prefix);
}

proof fn hidden_entry(es: Seq<TreeEntry>, k: int, e: TreeEntry, prefix: Seq<u8>)
    requires
        0 <= k <= es.len(),
        !e.counts(),
    ensures
        ordered(es.insert(k, e), prefix) == ordered(es, prefix),
    decreases es.len(),
{
    let fs = es.insert(k, e);
    if k == es.len() {
        assert(fs.drop_last() =~= es);
    } else {
        hidden_entry(es.drop_last(), k, e, prefix);
        assert(fs.drop_last() =~= es.drop_last().insert(k, e));
        assert(fs[fs.len() - 1] == es[es.len() - 1]);
    }
}

/// Whether two entries are the same but for what does not count in the directories they hold, and
/// for the order in which these list it.
pub open spec fn same_entry(a: TreeEntry, b: TreeEntry) -> bool
    decreases a, 0int,
{
    a.label() == b.label() && match (a, b) {
        (TreeEntry::Dir { entries: x, .. }, TreeEntry::Dir { entries: y, .. }) => same_listing(
            x@,
            y@,
        ),
        (TreeEntry::Link { target: x, .. }, TreeEntry::Link { target: y, .. }) => x.deep_view()
            == y.deep_view(),
        (TreeEntry::File { contents: x, .. }, TreeEntry::File { contents: y, .. }) => x.deep_view()
            == y.deep_view(),
        (TreeEntry::Unknown { .. }, TreeEntry::Unknown { .. }) => true,
        _ => false,
    }
}

/// Whether two listings hold the same entries that count, in any order, none of them under a name
/// that is taken. What else they hold, as entries whose name starts with a dot, does not matter.
pub open spec fn same_listing(a: Seq<TreeEntry>, b: Seq<TreeEntry>) -> bool
    decreases a, 1int,
{
    &&& own_names(a)
    &&& own_names(b)
    &&& forall|i: int|
        #![trigger a[i]]
        0 <= i < a.len() && a[i].counts() ==> exists|j: int|
            0 <= j < b.len() && same_entry(a[i], #[trigger] b[j])
    &&& forall|j: int|
        #![trigger b[j]]
        0 <= j < b.len() && b[j].counts() ==> exists|i: int|
            0 <= i < a.len() && same_entry(#[trigger] a[i], b[j])
}

/// Whether no two entries that count have the same name.
pub open spec fn own_names(es: Seq<TreeEntry>) -> bool {
    forall|i: int, j: int|
        0 <= i < j < es.len() && (#[trigger] es[i]).counts() && (#[trigger] es[j]).counts()
            ==> es[i].label() != es[j].label()
}

spec fn by_name(s: Seq<(Seq<u8>, Seq<u8>)>) -> bool {
    forall|i: int, j: int|
        0 <= i < j < s.len() ==> strmap::bytes_lt((#[trigger] s[i]).0, (#[trigger] s[j]).0)
}

proof fn placed_holds(s: Seq<(Seq<u8>, Seq<u8>)>, x: (Seq<u8>, Seq<u8>), y: (Seq<u8>, Seq<u8>))
    ensures
        placed(s, x).contains(y) <==> s.contains(y) || x == y,
    decreases s.len(),
{
    let p = placed(s, x);
    if s.len() == 0 || !strmap::bytes_lt(x.0, s.last().0) {
        assert(p[p.len() - 1] == x);
        if p.contains(y) {
            let i = choose|i: int| 0 <= i < p.len() && p[i] == y;
            if i < s.len() {
                assert(s[i] == y);
            }
        }
        if s.contains(y) {
            let i = choose|i: int| 0 <= i < s.len() && s[i] == y;
            assert(p[i] == y);
        }
    } else {
        let d = s.drop_last();
        let q = placed(d, x);
        placed_holds(d, x, y);
        assert(p[p.len() - 1] == s.last());
        if p.contains(y) {
            let i = choose|i: int| 0 <= i < p.len() && p[i] == y;
            if i < q.len() {
                assert(q[i] == y);
                if d.contains(y) {
                    let j = choose|j: int| 0 <= j < d.len() && d[j] == y;
                    assert(s[j] == y);
                }
            } else {
                assert(s[s.len() - 1] == y);
            }
        }
        if s.contains(y) {
            let i = choose|i: int| 0 <= i < s.len() && s[i] == y;
            if i < d.len() {
                assert(d[i] == y);
            }
        }
        if q.contains(y) {
            let i = choose|i: int| 0 <= i < q.len() && q[i] == y;
            assert(p[i] == y);
        }
    }
}

proof fn placed_keeps_order(s: Seq<(Seq<u8>, Seq<u8>)>, x: (Seq<u8>, Seq<u8>))
    requires
        by_name(s),
        forall|i: int| 0 <= i < s.len() ==> (#[trigger] s[i]).0 != x.0,
    ensures
        by_name(placed(s, x)),
    decreases s.len(),
{
    let p = placed(s, x);
    if s.len() == 0 {
    } else if !strmap::bytes_lt(x.0, s.last().0) {
        sorting::bytes_lt_total(s.last().0, x.0);
        assert(s.last() == s[s.len() - 1]);
        assert forall|i: int, j: int| 0 <= i < j < p.len() implies strmap::bytes_lt(
            (#[trigger] p[i]).0,
            (#[trigger] p[j]).0,
        ) by {
            if j < s.len() {
                assert(strmap::bytes_lt(s[i].0, s[j].0));
            } else if i < s.len() - 1 {
                strmap::bytes_lt_transitive(s[i].0, s[s.len() - 1].0, x.0);
            }
        }
    } else {
        let d = s.drop_last();
        let q = placed(d, x);
        placed_keeps_order(d, x);
        assert forall|i: int, j: int| 0 <= i < j < p.len() implies strmap::bytes_lt(
            (#[trigger] p[i]).0,
            (#[trigger] p[j]).0,
        ) by {
            if j < q.len() {
                assert(strmap::bytes_lt(q[i].0, q[j].0));
            } else {
                placed_holds(d, x, q[i]);
                assert(q.contains(q[i]));
                if d.contains(q[i]) {
                    let m = choose|m: int| 0 <= m < d.len() && d[m] == q[i];
                    assert(strmap::bytes_lt(s[m].0, s[s.len() - 1].0));
                }
            }
        }
    }
}

/// What the list of a directory holds.
proof fn ordered_holds(es: Seq<TreeEntry>, prefix: Seq<u8>, x: (Seq<u8>, Seq<u8>))
    ensures
        ordered(es, prefix).contains(x) <==> exists|i: int|
            0 <= i < es.len() && (#[trigger] es[i]).counts() && x == (
                es[i].label(),
                entry_bytes(es[i], prefix),
            ),
    decreases es.len(),
{
    if es.len() > 0 {
        let d = es.drop_last();
        let rest = ordered(d, prefix);
        let e = es[es.len() - 1];
        let y = (e.label(), entry_bytes(e, prefix));
        ordered_holds(d, prefix, x);
        placed_holds(rest, y, x);
        if rest.contains(x) {
            let i = choose|i: int|
                0 <= i < d.len() && (#[trigger] d[i]).counts() && x == (
                    d[i].label(),
                    entry_bytes(d[i], prefix),
                );
            assert(es[i] == d[i]);
        }
        if exists|i: int|
            0 <= i < es.len() && (#[trigger] es[i]).counts() && x == (
                es[i].label(),
                entry_bytes(es[i], prefix),
            ) {
            let i = choose|i: int|
                0 <= i < es.len() && (#[trigger] es[i]).counts() && x == (
                    es[i].label(),
                    entry_bytes(es[i], prefix),
                );
            if i < d.len() {
                assert(d[i] == es[i]);
            }
        }
    }
}

proof fn ordered_by_name(es: Seq<TreeEntry>, prefix: Seq<u8>)
    requires
        own_names(es),
    ensures
        by_name(ordered(es, prefix)),
    decreases es.len(),
{
    if es.len() > 0 {
        let d = es.drop_last();
        let rest = ordered(d, prefix);
        let e = es[es.len() - 1];
        let y = (e.label(), entry_bytes(e, prefix));
        ordered_by_name(d, prefix);
        if e.counts() {
            assert forall|i: int| 0 <= i < rest.len() implies (#[trigger] rest[i]).0 != y.0 by {
                ordered_holds(d, prefix, rest[i]);
                assert(rest.contains(rest[i]));
                let m = choose|m: int|
                    0 <= m < d.len() && (#[trigger] d[m]).counts() && rest[i] == (
                        d[m].label(),
                        entry_bytes(d[m], prefix),
                    );
                assert(es[m] == d[m]);
            }
            placed_keeps_order(rest, y);
        }
    }
}

/// Two lists in order of names that hold the same are the same.
proof fn order_fixes_list(s: Seq<(Seq<u8>, Seq<u8>)>, t: Seq<(Seq<u8>, Seq<u8>)>)
    requires
        by_name(s),
        by_name(t),
        forall|x: (Seq<u8>, Seq<u8>)| s.contains(x) <==> t.contains(x),
    ensures
        s == t,
    decreases s.len(),
{
    if s.len() == 0 {
        if t.len() > 0 {
            assert(t.contains(t[0]));
        }
        assert(s =~= t);
    } else {
        let m = s.len() - 1;
        let n = t.len() - 1;
        assert(s.contains(s[m]));
        assert(t.len() > 0);
        assert(t.contains(t[n]));
        let k = choose|k: int| 0 <= k < t.len() && t[k] == s[m];
        let l = choose|l: int| 0 <= l < s.len() && s[l] == t[n];
        if k < n {
            assert(strmap::bytes_lt(t[k].0, t[n].0));
            if l < m {
                assert(strmap::bytes_lt(s[l].0, s[m].0));
                strmap::bytes_lt_transitive(s[l].0, s[m].0, s[l].0);
            }
            strmap::bytes_lt_irreflexive(t[n].0);
        }
        assert(s[m] == t[n]);
        let c = s.drop_last();
        let d = t.drop_last();
        assert forall|x: (Seq<u8>, Seq<u8>)| c.contains(x) <==> d.contains(x) by {
            if c.contains(x) {
                let i = choose|i: int| 0 <= i < c.len() && c[i] == x;
                assert(strmap::bytes_lt(s[i].0, s[m].0));
                strmap::bytes_lt_irreflexive(s[m].0);
                assert(s.contains(s[i]));
                let j = choose|j: int| 0 <= j < t.len() && t[j] == x;
                assert(d[j] == x);
            }
            if d.contains(x) {
                let i = choose|i: int| 0 <= i < d.len() && d[i] == x;
                assert(strmap::bytes_lt(t[i].0, t[n].0));
                strmap::bytes_lt_irreflexive(t[n].0);
                assert(t.contains(t[i]));
                let j = choose|j: int| 0 <= j < s.len() && s[j] == x;
                assert(c[j] == x);
            }
        }
        order_fixes_list(c, d);
        assert(s =~= c.push(s[m]));
        assert(t =~= d.push(t[n]));
    }
}

proof fn same_entry_same_bytes(a: TreeEntry, b: TreeEntry, prefix: Seq<u8>)
    requires
        same_entry(a, b),
    ensures
        a.counts() == b.counts(),
        entry_bytes(a, prefix) == entry_bytes(b, prefix),
    decreases a, 0int,
{
    let rel = below(prefix, a.label());
    match (a, b) {
        (TreeEntry::Dir { entries: x, .. }, TreeEntry::Dir { entries: y, .. }) => {
            listing_order_does_not_count(x@, y@, rel);
        },
        (TreeEntry::Link { target: Some(x), .. }, TreeEntry::Link { target: Some(y), .. }) => {
            assert(x.deep_view() =~= x@);
            assert(y.deep_view() =~= y@);
        },
        (TreeEntry::File { contents: Some(x), .. }, TreeEntry::File { contents: Some(y), .. }) => {
            assert(x.deep_view() =~= x@);
            assert(y.deep_view() =~= y@);
        },
        _ => {},
    }
}

/// Two trees whose entries that count are the same have the same bytes: neither the order in which
/// directories list their entries nor, at any depth, entries whose name starts with a dot move the
/// digest of a tree.
pub proof fn listing_order_does_not_count(
    a: Seq<TreeEntry>,
    b: Seq<TreeEntry>,
    prefix: Seq<u8>,
)
    requires
        same_listing(a, b),
    ensures
        dir_bytes(a, prefix) == dir_bytes(b, prefix),
    decreases a, 1int,
{
    let s = ordered(a, prefix);
    let t = ordered(b, prefix);
    ordered_by_name(a, prefix);
    ordered_by_name(b, prefix);
    assert forall|x: (Seq<u8>, Seq<u8>)| s.contains(x) <==> t.contains(x) by {
        ordered_holds(a, prefix, x);
        ordered_holds(b, prefix, x);
        if s.contains(x) {
            let i = choose|i: int|
                0 <= i < a.len() && (#[trigger] a[i]).counts() && x == (
                    a[i].label(),
                    entry_bytes(a[i], prefix),
                );
            let j = choose|j: int| 0 <= j < b.len() && same_entry(a[i], #[trigger] b[j]);
            same_entry_same_bytes(a[i], b[j], prefix);
            assert(b[j].counts());
        }
        if t.contains(x) {
            let j = choose|j: int|
                0 <= j < b.len() && (#[trigger] b[j]).counts() && x == (
                    b[j].label(),
                    entry_bytes(b[j], prefix),
                );
            let i = choose|i: int| 0 <= i < a.len() && same_entry(#[trigger] a[i], b[j]);
            same_entry_same_bytes(a[i], b[j], prefix);
            assert(a[i].counts());
        }
    }
    order_fixes_list(s, t);
}

spec fn differ_at(s: Seq<(Seq<u8>, Seq<u8>)>, t: Seq<(Seq<u8>, Seq<u8>)>, p: int) -> bool {
    &&& s.len() == t.len()
    &&& 0 <= p < s.len()
    &&& s[p].0 == t[p].0
    &&& s[p].1 != t[p].1
    &&& forall|i: int| 0 <= i < s.len() && i != p ==> s[i] == t[i]
}

proof fn placed_both(
    s: Seq<(Seq<u8>, Seq<u8>)>,
    t: Seq<(Seq<u8>, Seq<u8>)>,
    p: int,
    x: (Seq<u8>, Seq<u8>),
) -> (r: int)
    requires
        differ_at(s, t, p),
    ensures
        differ_at(placed(s, x), placed(t, x), r),
    decreases s.len(),
{
    let m = s.len() - 1;
    assert(s.last() == s[m] && t.last() == t[m]);
    assert(s.last().0 == t.last().0);
    if !strmap::bytes_lt(x.0, s.last().0) {
        assert(differ_at(s.push(x), t.push(x), p));
        p
    } else if p == m {
        assert(s.drop_last() =~= t.drop_last());
        let q = placed(s.drop_last(), x);
        assert(differ_at(q.push(s.last()), q.push(t.last()), q.len() as int));
        q.len() as int
    } else {
        let r = placed_both(s.drop_last(), t.drop_last(), p, x);
        r
    }
}

proof fn placed_either(s: Seq<(Seq<u8>, Seq<u8>)>, x: (Seq<u8>, Seq<u8>), y: (Seq<u8>, Seq<u8>)) -> (r:
    int)
    requires
        x.0 == y.0,
        x.1 != y.1,
    ensures
        differ_at(placed(s, x), placed(s, y), r),
    decreases s.len(),
{
    if s.len() == 0 || !strmap::bytes_lt(x.0, s.last().0) {
        assert(differ_at(s.push(x), s.push(y), s.len() as int));
        s.len() as int
    } else {
        placed_either(s.drop_last(), x, y)
    }
}

proof fn differing_lists(s: Seq<(Seq<u8>, Seq<u8>)>, t: Seq<(Seq<u8>, Seq<u8>)>, p: int)
    requires
        differ_at(s, t, p),
    ensures
        chained(s) != chained(t),
    decreases s.len(),
{
    let m = s.len() - 1;
    let a = chained(s.drop_last());
    let b = chained(t.drop_last());
    if p == m {
        assert(s.drop_last() =~= t.drop_last());
        if chained(s) == chained(t) {
            assert(s.last().1 =~= chained(s).skip(a.len() as int));
            assert(t.last().1 =~= chained(t).skip(a.len() as int));
        }
    } else {
        differing_lists(s.drop_last(), t.drop_last(), p);
        assert(s[m] == t[m]);
        if chained(s) == chained(t) {
            assert(chained(s).len() == a.len() + s.last().1.len());
            assert(chained(t).len() == b.len() + t.last().1.len());
            assert(a =~= chained(s).take(a.len() as int));
            assert(b =~= chained(t).take(a.len() as int));
        }
    }
}

proof fn changed_list(es: Seq<TreeEntry>, k: int, e: TreeEntry, prefix: Seq<u8>) -> (r: int)
    requires
        0 <= k < es.len(),
        es[k].counts(),
        e.counts(),
        e.label() == es[k].label(),
        entry_bytes(e, prefix) != entry_bytes(es[k], prefix),
    ensures
        differ_at(ordered(es, prefix), ordered(es.update(k, e), prefix), r),
    decreases es.len(),
{
    let m = es.len() - 1;
    let fs = es.update(k, e);
    let d = es.drop_last();
    if k == m {
        assert(fs.drop_last() =~= d);
        placed_either(
            ordered(d, prefix),
            (e.label(), entry_bytes(es[k], prefix)),
            (e.label(), entry_bytes(e, prefix)),
        )
    } else {
        assert(fs.drop_last() =~= d.update(k, e));
        let p = changed_list(d, k, e, prefix);
        if es[m].counts() {
            placed_both(
                ordered(d, prefix),
                ordered(d.update(k, e), prefix),
                p,
                (es[m].label(), entry_bytes(es[m], prefix)),
            )
        } else {
            p
        }
    }
}

/// An entry whose bytes change moves the bytes of its directory, and so, one directory after the
/// other, those of the whole tree.
pub proof fn changed_entries_count(es: Seq<TreeEntry>, k: int, e: TreeEntry, prefix: Seq<u8>)
    requires
        0 <= k < es.len(),
        es[k].counts(),
        e.counts(),
        e.label() == es[k].label(),
        entry_bytes(e, prefix) != entry_bytes(es[k], prefix),
    ensures
        dir_bytes(es.update(k, e), prefix) != dir_bytes(es, prefix),
{
    let p = changed_list(es, k, e, prefix);
    differing_lists(ordered(es, prefix), ordered(es.update(k, e), prefix), p);
}

/// Two entries of one name and one kind have the same bytes only if they hold the same: for a
/// file its contents, for a link its target, for a directory its bytes.
pub proof fn contents_count(a: TreeEntry, b: TreeEntry, prefix: Seq<u8>)
    requires
        a.label() == b.label(),
        entry_bytes(a, prefix) == entry_bytes(b, prefix),
    ensures
        match (a, b) {
            (
                TreeEntry::Dir { entries: x, .. },
                TreeEntry::Dir { entries: y, .. },
            ) => dir_bytes(x@, below(prefix, a.label())) == dir_bytes(
                y@,
                below(prefix, a.label()),
            ),
            (
                TreeEntry::Link { target: Some(x), .. },
                TreeEntry::Link { target: Some(y), .. },
            ) => x@ == y@,
            (
                TreeEntry::File { contents: Some(x), .. },
                TreeEntry::File { contents: Some(y), .. },
            ) => x@ == y@,
            _ => true,
        },
{
    let start = below(prefix, a.label()) + seq![0u8];
    let n = start.len() as int;
    let whole = entry_bytes(a, prefix);
    match (a, b) {
        (TreeEntry::Dir { entries: x, .. }, TreeEntry::Dir { entries: y, .. }) => {
            assert(dir_bytes(x@, below(prefix, a.label())) =~= whole.skip(n));
            assert(dir_bytes(y@, below(prefix, a.label())) =~= whole.skip(n));
        },
        (TreeEntry::Link { target: Some(x), .. }, TreeEntry::Link { target: Some(y), .. }) => {
            assert(x@ =~= whole.skip(n));
            assert(y@ =~= whole.skip(n));
        },
        (TreeEntry::File { contents: Some(x), .. }, TreeEntry::File { contents: Some(y), .. }) => {
            assert(x@ =~= whole.skip(n));
            assert(y@ =~= whole.skip(n));
        },
        _ => {},
    }
}

/// The bytes of all texts of a list together.
spec fn total(s: Seq<(Seq<u8>, Seq<u8>)>) -> nat {
    chained(s).len()
}

proof fn placed_adds(s: Seq<(Seq<u8>, Seq<u8>)>, x: (Seq<u8>, Seq<u8>))
    ensures
        total(placed(s, x)) == total(s) + x.1.len(),
    decreases s.len(),
{
    if s.len() == 0 || !strmap::bytes_lt(x.0, s.last().0) {
        assert(s.push(x).drop_last() =~= s);
    } else {
        placed_adds(s.drop_last(), x);
        let q = placed(s.drop_last(), x);
        assert(q.push(s.last()).drop_last() =~= q);
    }
}

proof fn one_more_entry(es: Seq<TreeEntry>, k: int, e: TreeEntry, prefix: Seq<u8>)
    requires
        0 <= k <= es.len(),
        e.counts(),
    ensures
        total(ordered(es.insert(k, e), prefix)) == total(ordered(es, prefix)) + entry_bytes(
            e,
            prefix,
        ).len(),
    decreases es.len(),
{
    let fs = es.insert(k, e);
    if k == es.len() {
        assert(fs.drop_last() =~= es);
        placed_adds(ordered(es, prefix), (e.label(), entry_bytes(e, prefix)));
    } else {
        let l = es[es.len() - 1];
        let d = es.drop_last();
        one_more_entry(d, k, e, prefix);
        assert(fs.drop_last() =~= d.insert(k, e));
        assert(fs[fs.len() - 1] == l);
        if l.counts() {
            placed_adds(ordered(d, prefix), (l.label(), entry_bytes(l, prefix)));
            placed_adds(ordered(d.insert(k, e), prefix), (l.label(), entry_bytes(l, prefix)));
        }
    }
}

/// A new entry that counts moves the bytes of its directory, wherever it stands.
pub proof fn new_entries_count(es: Seq<TreeEntry>, k: int, e: TreeEntry, prefix: Seq<u8>)
    requires
        0 <= k <= es.len(),
        e.counts(),
    ensures
        dir_bytes(es.insert(k, e), prefix) != dir_bytes(es, prefix),
{
    one_more_entry(es, k, e, prefix);
}

/// Whether two entries of one name differ by one change: in the contents of a file, in the target
/// of a link, or in what a directory holds.
pub open spec fn changed_entry(a: TreeEntry, b: TreeEntry) -> bool
    decreases a, 0int,
{
    a.label() == b.label() && match (a, b) {
        (TreeEntry::Dir { entries: x, .. }, TreeEntry::Dir { entries: y, .. }) => one_change(x@, y@),
        (
            TreeEntry::Link { target: Some(x), .. },
            TreeEntry::Link { target: Some(y), .. },
        ) => x@ != y@,
        (
            TreeEntry::File { contents: Some(x), .. },
            TreeEntry::File { contents: Some(y), .. },
        ) => x@ != y@,
        _ => false,
    }
}

/// Whether a listing becomes another by one change among the entries that count: one of them is
/// added, or one is changed.
pub open spec fn one_change(a: Seq<TreeEntry>, b: Seq<TreeEntry>) -> bool
    decreases a, 1int,
{
    ||| exists|k: int|
        0 <= k < b.len() && (#[trigger] b[k]).counts() && a == b.remove(k)
    ||| exists|k: int|
        0 <= k < a.len() && a.len() == b.len() && (#[trigger] a[k]).counts() && changed_entry(
            a[k],
            b[k],
        ) && b == a.update(k, b[k])
}

proof fn changed_bytes(a: TreeEntry, b: TreeEntry, prefix: Seq<u8>)
    requires
        a.counts(),
        changed_entry(a, b),
    ensures
        b.counts(),
        entry_bytes(a, prefix) != entry_bytes(b, prefix),
    decreases a, 0int,
{
    if entry_bytes(a, prefix) == entry_bytes(b, prefix) {
        contents_count(a, b, prefix);
    }
    match (a, b) {
        (TreeEntry::Dir { entries: x, .. }, TreeEntry::Dir { entries: y, .. }) => {
            one_change_counts(x@, y@, below(prefix, a.label()));
        },
        _ => {},
    }
}

/// A new file, other contents of a file, or another target of a link, at any depth of a tree, moves
/// its bytes.
pub proof fn one_change_counts(a: Seq<TreeEntry>, b: Seq<TreeEntry>, prefix: Seq<u8>)
    requires
        one_change(a, b),
    ensures
        dir_bytes(a, prefix) != dir_bytes(b, prefix),
    decreases a, 1int,
{
    if exists|k: int| 0 <= k < b.len() && (#[trigger] b[k]).counts() && a == b.remove(k) {
        let k = choose|k: int|
            0 <= k < b.len() && (#[trigger] b[k]).counts() && a == b.remove(k);
        new_entries_count(a, k, b[k], prefix);
        assert(a.insert(k, b[k]) =~= b);
    } else {
        let k = choose|k: int|
            0 <= k < a.len() && a.len() == b.len() && (#[trigger] a[k]).counts() && changed_entry(
                a[k],
                b[k],
            ) && b == a.update(k, b[k]);
        changed_bytes(a[k], b[k], prefix);
        changed_entries_count(a, k, b[k], prefix);
    }
}

/// A file, a link or a directory counts exactly where its name does not start with a dot. What is
/// none of these does not count.
pub proof fn names_with_a_dot_are_hidden(
    name: Vec<u8>,
    contents: Option<Vec<u8>>,
    entries: Vec<TreeEntry>,
)
    ensures
        ({
            let hidden = name@.len() > 0 && name@[0] == 46;
            &&& (TreeEntry::File { name, contents }).counts() == !hidden
            &&& (TreeEntry::Link { name, target: contents }).counts() == !hidden
            &&& (TreeEntry::Dir { name, entries }).counts() == !hidden
            &&& !(TreeEntry::Unknown { name }).counts()
        }),
{
}

/// An entry stands in the bytes of a tree behind its path, whose parts are between slashes, and a zero
/// byte: a file as its contents, a link as its target.
pub proof fn entries_stand_behind_their_path(
    name: Vec<u8>,
    contents: Vec<u8>,
    prefix: Seq<u8>,
)
    ensures
        ({
            let f = TreeEntry::File { name, contents: Some(contents) };
            let l = TreeEntry::Link { name, target: Some(contents) };
            &&& entry_bytes(f, Seq::empty()) == name@ + seq![0u8] + contents@
            &&& prefix.len() > 0 ==> entry_bytes(f, prefix) == prefix + seq![47u8] + name@
                + seq![0u8] + contents@
            &&& entry_bytes(l, Seq::empty()) == name@ + seq![0u8] + contents@
            &&& prefix.len() > 0 ==> entry_bytes(l, prefix) == prefix + seq![47u8] + name@
                + seq![0u8] + contents@
        }),
{
}

} // verus!
