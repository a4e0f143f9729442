//! What the commands decide: which target is meant, what is linked, cleaned and shown.
use crate::backend::{Backend, RepoFacts, RepoView};
use crate::cache;
use crate::cache::ArtifactCache;
use crate::digest;
use crate::path;
use crate::progress;
use crate::sorting;
use crate::strmap;
use crate::strmap::StrMap;
use crate::drv::Output;
use crate::text;
use vstd::prelude::*;
use vstd::utf8::encode_utf8;

verus! {

/// What a target on the command line means.
pub enum Target {
    /// A derivation, which needs no resolving.
    Derivation(String),
    /// The project around the working directory.
    Here,
    /// A name that a backend has to know.
    Named(String),
}

/// Whether a target is the path of a derivation in the store.
pub open spec fn is_drv_path(target: Seq<char>) -> bool {
    "/nix/store/"@.is_prefix_of(target) && ".drv"@.is_suffix_of(target)
}

/// Tells what a target means.
pub fn read_target(target: &str) -> (r: Target)
    ensures
        match r {
            Target::Derivation(d) => is_drv_path(target@) && d@ == target@,
            Target::Here => !is_drv_path(target@) && target@ == "."@,
            Target::Named(n) => !is_drv_path(target@) && target@ != "."@ && n@ == target@,
        },
{
    if text::starts_with(target, "/nix/store/") && text::ends_with(target, ".drv") {
        Target::Derivation(target.to_owned())
    } else if text::str_eq(target, ".") {
        Target::Here
    } else {
        Target::Named(target.to_owned())
    }
}

/// All targets of some backends, one list behind the other.
pub open spec fn all_targets(backends: Seq<&dyn Backend>, repo: RepoView) -> Seq<Seq<char>>
    decreases backends.len(),
{
    if backends.len() == 0 {
        Seq::empty()
    } else {
        all_targets(backends.drop_last(), repo) + backends.last().targets(repo)
    }
}

/// The message about a name that no backend knows, with up to ten of the targets there are.
pub open spec fn unknown_target(name: Seq<char>, targets: Seq<Seq<char>>) -> Seq<char> {
    let all = sorting::sorted(targets);
    let some = if all.len() > 10 {
        all.take(10)
    } else {
        all
    };
    if some.len() == 0 {
        "unknown target '"@ + name + "'"@
    } else {
        "unknown target '"@ + name + "'. some available: "@ + text::joined(some, ", "@)
    }
}

/// Writes the message about a name that no backend knows.
pub fn unknown_target_text(name: &str, targets: Vec<String>) -> (r: String)
    ensures
        r@ == unknown_target(name@, targets.deep_view()),
{
    let ghost ts = targets.deep_view();
    let mut all = sorting::sort(targets);
    let ghost sorted = sorting::sorted(ts);
    let mut some: Vec<String> = Vec::new();
    let n: usize = all.len();
    let m: usize = if n > 10 {
        10
    } else {
        n
    };
    assert(some.deep_view() =~= sorted.take(0));
    for i in 0..m
        invariant
            m <= n == all@.len(),
            all.deep_view() == sorted,
            some.deep_view() == sorted.take(i as int),
    {
        let ghost before = some.deep_view();
        some.push(all[i].clone());
        proof {
            assert(sorted[i as int] == all@[i as int]@);
            assert(some.deep_view() =~= before.push(sorted[i as int]));
            assert(sorted.take(i + 1) =~= sorted.take(i as int).push(sorted[i as int]));
        }
    }
    assert(sorted.take(sorted.len() as int) =~= sorted);
    let mut s = "unknown target '".to_owned();
    s.append(name);
    if m == 0 {
        s.append("'");
    } else {
        s.append("'. some available: ");
        s.append(text::join(&some, ", ").as_str());
    }
    s
}

/// The first backend from position `i` on that knows a target, with the target's attribute.
pub open spec fn attr_from(
    backends: Seq<&dyn Backend>,
    i: int,
    name: Seq<char>,
    repo: RepoView,
) -> Option<(int, Seq<char>)>
    decreases backends.len() - i,
{
    if i < 0 || i >= backends.len() {
        None
    } else {
        match backends[i].attr_of(name, repo) {
            Some(a) => Some((i, a)),
            None => attr_from(backends, i + 1, name, repo),
        }
    }
}

/// Finds the backend that knows a target, and the target's attribute: the first one counts. Where
/// none knows it, the message says so.
pub fn resolve_target(backends: &Vec<&dyn Backend>, name: &str, repo: &RepoFacts) -> (r: Result<
    (usize, String),
    String,
>)
    ensures
        match r {
            Ok(ba) => attr_from(backends@, 0, name@, repo.deep_view()) == Some(
                (ba.0 as int, ba.1@),
            ),
            Err(e) => {
                &&& attr_from(backends@, 0, name@, repo.deep_view()) is None
                &&& e@ == unknown_target(name@, all_targets(backends@, repo.deep_view()))
            },
        },
{
    for i in 0..backends.len()
        invariant
            attr_from(backends@, 0, name@, repo.deep_view()) == attr_from(
                backends@,
                i as int,
                name@,
                repo.deep_view(),
            ),
    {
        match backends[i].resolve_attr(name, repo) {
            Some(a) => {
                return Ok((i, a));
            },
            None => {},
        }
    }
    let mut avail: Vec<String> = Vec::new();
    let ghost bs = backends@;
    assert(avail.deep_view() =~= all_targets(bs.take(0), repo.deep_view()));
    for i in 0..backends.len()
        invariant
            bs == backends@,
            avail.deep_view() == all_targets(bs.take(i as int), repo.deep_view()),
    {
        let l = backends[i].list_targets(repo);
        let ghost ld = l.deep_view();
        let ghost before = avail.deep_view();
        assert(before + ld.take(0) =~= before);
        for k in 0..l.len()
            invariant
                ld == l.deep_view(),
                avail.deep_view() == before + ld.take(k as int),
        {
            let ghost b = avail.deep_view();
            avail.push(l[k].clone());
            proof {
                assert(ld[k as int] == l@[k as int]@);
                assert(avail.deep_view() =~= b.push(ld[k as int]));
                assert(ld.take(k + 1) =~= ld.take(k as int).push(ld[k as int]));
            }
        }
        proof {
            assert(ld.take(ld.len() as int) =~= ld);
            assert(bs.take(i + 1).drop_last() =~= bs.take(i as int));
        }
    }
    assert(bs.take(bs.len() as int) =~= bs);
    Err(unknown_target_text(name, avail))
}

/// Whether an argument is a command that only shims use.
pub fn is_internal(arg: &str) -> (r: bool)
    ensures
        r == "__"@.is_prefix_of(arg@),
{
    text::starts_with(arg, "__")
}

/// Finds the backend whose shims use a command: the first one counts.
pub fn dispatch_internal(backends: &Vec<&dyn Backend>, cmd: &str) -> (r: Option<usize>)
    ensures
        match r {
            Some(i) => {
                &&& i < backends@.len()
                &&& backends@[i as int].internal() == Some(cmd@)
                &&& forall|j: int|
                    0 <= j < i ==> (#[trigger] backends@[j]).internal() != Some(cmd@)
            },
            None => forall|j: int|
                0 <= j < backends@.len() ==> (#[trigger] backends@[j]).internal() != Some(cmd@),
        },
{
    for i in 0..backends.len()
        invariant
            forall|j: int| 0 <= j < i ==> (#[trigger] backends@[j]).internal() != Some(cmd@),
    {
        if backends[i].claims_internal(cmd) {
            return Some(i);
        }
    }
    None
}

/// The bytes that tell which derivations are units: the names of the backends, and `bob.nix`, which
/// declares units.
pub open spec fn predicate_bytes(backends: Seq<&dyn Backend>, bob_nix: Option<Seq<u8>>) -> Seq<u8> {
    id_bytes(backends) + match bob_nix {
        Some(b) => b,
        None => Seq::empty(),
    }
}

/// The names of some backends, each with a zero byte behind it.
pub open spec fn id_bytes(backends: Seq<&dyn Backend>) -> Seq<u8>
    decreases backends.len(),
{
    if backends.len() == 0 {
        Seq::empty()
    } else {
        id_bytes(backends.drop_last()) + encode_utf8(backends.last().id_of()) + seq![0u8]
    }
}

/// Gives a key for the choice of units: 16 digits. `bob.nix` is given if it can be read.
pub fn predicate_key(backends: &Vec<&dyn Backend>, bob_nix: Option<&[u8]>) -> (r: String)
    ensures
        r@ == digest::short_hex(
            predicate_bytes(
                backends@,
                match bob_nix {
                    Some(b) => Some(b@),
                    None => None,
                },
            ),
            16,
        ),
        r@.len() == 16,
        digest::hex_text(r@),
{
    let ghost bs = backends@;
    let mut h = digest::new_hasher();
    assert(id_bytes(bs.take(0)) =~= Seq::empty());
    for i in 0..backends.len()
        invariant
            bs == backends@,
            digest::hasher_input(h) == Some(id_bytes(bs.take(i as int))),
    {
        digest::update(&mut h, backends[i].id().as_bytes());
        digest::update(&mut h, &[0u8]);
        proof {
            assert(bs.take(i + 1).drop_last() =~= bs.take(i as int));
            assert(digest::hasher_input(h)->Some_0 =~= id_bytes(bs.take(i + 1)));
        }
    }
    assert(bs.take(bs.len() as int) =~= bs);
    match bob_nix {
        Some(b) => {
            digest::update(&mut h, b);
        },
        None => {},
    }
    proof {
        let b = match bob_nix {
            Some(b) => Some(b@),
            None => None,
        };
        assert(digest::hasher_input(h)->Some_0 =~= predicate_bytes(bs, b));
    }
    digest::cut(digest::finish(&h).as_str(), 16)
}

/// The outputs of a target in the order in which they are linked: `out`, then the others in
/// ascending order.
pub open spec fn link_order(l: Seq<Seq<char>>) -> Seq<Seq<char>> {
    seq!["out"@] + others(l)
}

/// Names other than `out`.
pub open spec fn others(l: Seq<Seq<char>>) -> Seq<Seq<char>>
    decreases l.len(),
{
    if l.len() == 0 {
        Seq::empty()
    } else if l.last() == "out"@ {
        others(l.drop_last())
    } else {
        others(l.drop_last()).push(l.last())
    }
}

/// Gives the outputs of a target in the order in which they are linked.
pub fn output_order(outputs: &StrMap<Output>) -> (r: Vec<String>)
    ensures
        r.deep_view() == link_order(strmap::keys_of(strmap::listing(outputs@))),
{
    let names = outputs.keys();
    let ghost ks = strmap::keys_of(strmap::listing(outputs@));
    let mut r: Vec<String> = Vec::new();
    r.push("out".to_owned());
    assert(r.deep_view() =~= seq!["out"@] + others(ks.take(0)));
    for i in 0..names.len()
        invariant
            names.deep_view() == ks,
            r.deep_view() == seq!["out"@] + others(ks.take(i as int)),
    {
        proof {
            assert(ks.take(i + 1).drop_last() =~= ks.take(i as int));
            assert(ks[i as int] == names@[i as int]@);
        }
        if !text::str_eq(names[i].as_str(), "out") {
            let ghost before = r.deep_view();
            r.push(names[i].clone());
            assert(r.deep_view() =~= before.push(ks[i as int]));
            assert(r.deep_view() =~= seq!["out"@] + others(ks.take(i + 1)));
        }
    }
    assert(ks.take(ks.len() as int) =~= ks);
    r
}

/// The name of the link to an output of the target at position `idx`: `<prefix>[-<n>][-<output>]`,
/// without a number for the first target and without a name for `out`.
pub open spec fn link_name(prefix: Seq<char>, idx: nat, output: Seq<char>) -> Seq<char> {
    prefix + (if idx == 0 {
        Seq::empty()
    } else {
        "-"@ + text::decimal(idx + 1)
    }) + (if output == "out"@ {
        Seq::empty()
    } else {
        "-"@ + output
    })
}

/// Gives the name of the link to an output.
pub fn out_link(prefix: &str, idx: usize, output: &str) -> (r: String)
    requires
        idx < usize::MAX,
    ensures
        r@ == link_name(prefix@, idx as nat, output@),
{
    let mut s = prefix.to_owned();
    if idx > 0 {
        s.append("-");
        s.append(text::usize_text(idx + 1).as_str());
    }
    if !text::str_eq(output, "out") {
        s.append("-");
        s.append(output);
    }
    assert(s@ =~= link_name(prefix@, idx as nat, output@));
    s
}

/// What is to be cleaned.
pub enum Clean {
    /// Everything but the results of evaluations.
    All,
    /// What compilers keep.
    Incremental,
    /// What is kept for a derivation under its own key.
    Member(String),
}

/// A directory to remove, and how its removal is reported.
pub struct Removal {
    pub label: String,
    pub path: String,
}

impl DeepView for Removal {
    type V = (Seq<char>, Seq<char>);

    open spec fn deep_view(&self) -> (Seq<char>, Seq<char>) {
        (self.label@, self.path@)
    }
}

/// The directories to remove.
pub open spec fn removals(root: Seq<char>, what: Clean) -> Seq<(Seq<char>, Seq<char>)> {
    match what {
        Clean::All => seq![
            ("removed: "@, path::joined(root, "artifacts"@)),
            ("removed: "@, path::joined(root, "incremental"@)),
            ("removed: "@, path::joined(root, "tmp"@)),
            ("removed: "@, path::joined(root, "rmeta"@)),
            ("removed: "@, path::joined(root, "build"@)),
        ],
        Clean::Incremental => seq![("removed: "@, path::joined(root, "incremental"@))],
        Clean::Member(d) => seq![
            ("removed artifact: "@, cache::artifact_path(root, cache::drv_key(d@))),
            ("removed incremental: "@, cache::incremental_place(root, d@)),
        ],
    }
}

fn removal(label: &str, path: String) -> (r: Removal)
    ensures
        r.deep_view() == (label@, path@),
{
    Removal { label: label.to_owned(), path }
}

/// Gives the directories to remove.
pub fn plan_clean(cache: &ArtifactCache, what: &Clean) -> (r: Vec<Removal>)
    ensures
        r.deep_view() == removals(cache@, *what),
{
    let mut r: Vec<Removal> = Vec::new();
    match what {
        Clean::All => {
            r.push(removal("removed: ", path::join(cache.root(), "artifacts")));
            r.push(removal("removed: ", path::join(cache.root(), "incremental")));
            r.push(removal("removed: ", path::join(cache.root(), "tmp")));
            r.push(removal("removed: ", path::join(cache.root(), "rmeta")));
            r.push(removal("removed: ", path::join(cache.root(), "build")));
        },
        Clean::Incremental => {
            r.push(removal("removed: ", path::join(cache.root(), "incremental")));
        },
        Clean::Member(d) => {
            r.push(removal("removed artifact: ", cache.artifact_dir(d.as_str())));
            r.push(removal("removed incremental: ", cache.incremental_dir(d.as_str())));
        },
    }
    assert(r.deep_view() =~= removals(cache@, *what));
    r
}

/// What is said when cleaning is over, given the name on the command line and whether anything was
/// removed.
pub fn clean_report(what: &Clean, name: &str, removed: bool) -> (r: Option<String>)
    ensures
        ({
            let want = match *what {
                Clean::All => Some("done"@),
                Clean::Incremental => if removed {
                    None
                } else {
                    Some("no incremental cache"@)
                },
                Clean::Member(_) => if removed {
                    None
                } else {
                    Some("nothing cached for '"@ + name@ + "'"@)
                },
            };
            match r {
                Some(s) => want == Some(s@),
                None => want is None,
            }
        }),
{
    match what {
        Clean::All => Some("done".to_owned()),
        Clean::Incremental => if removed {
            None
        } else {
            Some("no incremental cache".to_owned())
        },
        Clean::Member(_) => if removed {
            None
        } else {
            let mut s = "nothing cached for '".to_owned();
            s.append(name);
            s.append("'");
            Some(s)
        },
    }
}

/// The results of evaluations survive cleaning everything.
pub proof fn evaluations_survive(root: Seq<char>, i: int)
    requires
        0 <= i < removals(root, Clean::All).len(),
    ensures
        removals(root, Clean::All)[i].1 != path::joined(root, "eval"@),
{
    reveal_strlit("artifacts");
    reveal_strlit("incremental");
    reveal_strlit("tmp");
    reveal_strlit("rmeta");
    reveal_strlit("build");
    reveal_strlit("eval");
    reveal_strlit("/");
    let e = path::joined(root, "eval"@);
    assert(path::joined(root, "artifacts"@).len() == e.len() + 5);
    assert(path::joined(root, "incremental"@).len() == e.len() + 7);
    assert(path::joined(root, "tmp"@).len() == e.len() - 1);
    assert(path::joined(root, "rmeta"@).len() == e.len() + 1);
    assert(path::joined(root, "build"@).len() == e.len() + 1);
}

/// The part of a link's name that counts targets.
spec fn number_part(idx: nat) -> Seq<char> {
    if idx == 0 {
        Seq::empty()
    } else {
        "-"@ + text::decimal(idx + 1)
    }
}

/// The part of a link's name that names the output.
spec fn output_part(output: Seq<char>) -> Seq<char> {
    if output == "out"@ {
        Seq::empty()
    } else {
        "-"@ + output
    }
}

/// The number part of a link's name ends where no digit follows, so it can be told from the rest.
proof fn number_is_determined(i: nat, x: Seq<char>, j: nat, y: Seq<char>)
    requires
        number_part(i) + x == number_part(j) + y,
        x.len() == 0 || (x.len() > 1 && x[0] == '-' && !('0' <= x[1] <= '9')),
        y.len() == 0 || (y.len() > 1 && y[0] == '-' && !('0' <= y[1] <= '9')),
    ensures
        i == j,
        x == y,
{
    reveal_strlit("-");
    let s = number_part(i) + x;
    let t = number_part(j) + y;
    let d = text::decimal(i + 1);
    let e = text::decimal(j + 1);
    text::decimal_value(i + 1);
    text::decimal_value(j + 1);
    if i == 0 && j > 0 {
        assert(s =~= x);
        assert(t[1] == e[0]);
        assert(false);
    } else if j == 0 && i > 0 {
        assert(t =~= y);
        assert(s[1] == d[0]);
        assert(false);
    } else if i > 0 {
        let m = d.len() as int;
        let n = e.len() as int;
        if m < n {
            assert(t[1 + m] == e[m]);
            assert(s[1 + m] == x[0]);
            assert(false);
        }
        if n < m {
            assert(s[1 + n] == d[n]);
            assert(t[1 + n] == y[0]);
            assert(false);
        }
        assert(d =~= s.subrange(1, 1 + m));
        assert(e =~= t.subrange(1, 1 + m));
        assert(x =~= s.skip(1 + m));
        assert(y =~= t.skip(1 + m));
    } else {
        assert(s =~= x && t =~= y);
    }
}

/// Different outputs of different targets have different links. No output's name starts with a
/// digit.
pub proof fn links_are_distinct(prefix: Seq<char>, i: nat, a: Seq<char>, j: nat, b: Seq<char>)
    requires
        i != j || a != b,
        a.len() > 0 && !('0' <= a[0] <= '9'),
        b.len() > 0 && !('0' <= b[0] <= '9'),
    ensures
        link_name(prefix, i, a) != link_name(prefix, j, b),
{
    reveal_strlit("-");
    let x = output_part(a);
    let y = output_part(b);
    let s = link_name(prefix, i, a);
    let t = link_name(prefix, j, b);
    assert(s.skip(prefix.len() as int) =~= number_part(i) + x);
    assert(t.skip(prefix.len() as int) =~= number_part(j) + y);
    if s == t {
        number_is_determined(i, x, j, y);
        if a != "out"@ && b != "out"@ {
            assert(x.skip(1) =~= a);
            assert(y.skip(1) =~= b);
        }
    }
}

/// How many bytes a text has.
pub open spec fn byte_len(s: Seq<char>) -> nat {
    encode_utf8(s).len()
}

/// How many bytes a character has.
spec fn width(c: char) -> nat {
    let u = c as u32;
    if u < 0x80 {
        1
    } else if u < 0x800 {
        2
    } else if u < 0x10000 {
        3
    } else {
        4
    }
}

proof fn one_more_char(s: Seq<char>, c: char)
    ensures
        byte_len(s.push(c)) == byte_len(s) + width(c),
    decreases s.len(),
{
    if s.len() == 0 {
        let t = s.push(c);
        assert(t.drop_first() =~= Seq::empty());
        assert(encode_utf8(t.drop_first()).len() == 0);
    } else {
        let t = s.push(c);
        one_more_char(s.drop_first(), c);
        assert(t.drop_first() =~= s.drop_first().push(c));
    }
}

proof fn prefix_is_shorter(s: Seq<char>, i: int, j: int)
    requires
        0 <= i <= j <= s.len(),
    ensures
        byte_len(s.take(i)) <= byte_len(s.take(j)),
        i < j ==> byte_len(s.take(i)) < byte_len(s.take(j)),
    decreases j - i,
{
    if i < j {
        prefix_is_shorter(s, i, j - 1);
        assert(s.take(j) =~= s.take(j - 1).push(s[j - 1]));
        one_more_char(s.take(j - 1), s[j - 1]);
    }
}

/// The first `k` characters of a text are its first 120 bytes.
pub open spec fn ends_at_120(v: Seq<char>, k: int) -> bool {
    0 <= k <= v.len() && byte_len(v.take(k)) == 120
}

/// A value as it is shown: one of more than 120 bytes is cut behind them.
pub open spec fn shown_value(v: Seq<char>) -> Seq<char> {
    if byte_len(v) <= 120 {
        v
    } else {
        v.take(choose|k: int| ends_at_120(v, k)) + "..."@
    }
}

/// Gives a value as it is shown. One that is cut must not be cut inside a character.
pub fn show_value(v: &str) -> (r: String)
    requires
        byte_len(v@) > 120 ==> exists|k: int| ends_at_120(v@, k),
    ensures
        r@ == shown_value(v@),
{
    if v.as_bytes().len() <= 120 {
        return v.to_owned();
    }
    let cs = text::chars_of(v);
    let n: usize = cs.len();
    let ghost k = choose|k: int| ends_at_120(v@, k);
    let mut s = String::new();
    let mut bytes: usize = 0;
    let mut i: usize = 0;
    assert(cs@.take(0) =~= Seq::empty());
    while bytes < 120
        invariant
            cs@ == v@,
            n == cs@.len(),
            ends_at_120(v@, k),
            i <= k,
            s@ == v@.take(i as int),
            bytes == byte_len(v@.take(i as int)),
        decreases k - i,
    {
        proof {
            if i == k {
                assert(false);
            }
            assert(v@.take(i + 1) =~= v@.take(i as int).push(v@[i as int]));
            one_more_char(v@.take(i as int), v@[i as int]);
            prefix_is_shorter(v@, i + 1, k);
        }
        let c = cs[i];
        let u: u32 = c as u32;
        let w: usize = if u < 0x80 {
            1
        } else if u < 0x800 {
            2
        } else if u < 0x10000 {
            3
        } else {
            4
        };
        s.push(c);
        bytes = bytes + w;
        i += 1;
    }
    proof {
        if i < k {
            prefix_is_shorter(v@, i as int, k);
        }
    }
    s.append("...");
    s
}

/// A text with spaces behind it, up to a number of characters.
pub open spec fn padded_right(s: Seq<char>, n: nat) -> Seq<char> {
    if s.len() < n {
        s + progress::spaces((n - s.len()) as nat)
    } else {
        s
    }
}

/// A text with spaces before it, up to a number of characters.
pub open spec fn padded_left(s: Seq<char>, n: nat) -> Seq<char> {
    if s.len() < n {
        progress::spaces((n - s.len()) as nat) + s
    } else {
        s
    }
}

fn pad_right(s: &str, n: usize) -> (r: String)
    ensures
        r@ == padded_right(s@, n as nat),
{
    let mut len: usize = text::chars_of(s).len();
    let mut r = s.to_owned();
    let ghost start = len;
    assert(s@ + progress::spaces(0) =~= s@);
    while len < n
        invariant
            start == s@.len(),
            start <= len,
            len <= n || len == start,
            r@ == s@ + progress::spaces((len - start) as nat),
        decreases n - len,
    {
        r.push(' ');
        assert(r@ =~= s@ + progress::spaces((len + 1 - start) as nat));
        len += 1;
    }
    assert(r@ =~= padded_right(s@, n as nat));
    r
}

fn pad_left(s: &str, n: usize) -> (r: String)
    ensures
        r@ == padded_left(s@, n as nat),
{
    let mut len: usize = text::chars_of(s).len();
    let mut r = String::new();
    let ghost start = len;
    assert(r@ =~= progress::spaces(0));
    while len < n
        invariant
            start == s@.len(),
            start <= len,
            len <= n || len == start,
            r@ == progress::spaces((len - start) as nat),
        decreases n - len,
    {
        r.push(' ');
        assert(r@ =~= progress::spaces((len + 1 - start) as nat));
        len += 1;
    }
    r.append(s);
    assert(r@ =~= padded_left(s@, n as nat));
    r
}

/// A row of the cache statistics: how many entries a directory has, and the text of their size.
pub fn status_row(label: &str, count: usize, size: &str) -> (r: String)
    ensures
        r@ == "  "@ + padded_right(label@, 14) + " "@ + padded_left(text::decimal(count as nat), 5)
            + " entries   "@ + size@,
{
    let mut s = "  ".to_owned();
    s.append(pad_right(label, 14).as_str());
    s.append(" ");
    s.append(pad_left(text::usize_text(count).as_str(), 5).as_str());
    s.append(" entries   ");
    s.append(size);
    s
}

/// A row of the graph: the position of a unit in the order of builds, its name, and how many units
/// it depends on.
pub fn graph_row(i: usize, name: &str, ndeps: usize) -> (r: String)
    ensures
        r@ == "  "@ + padded_left(text::decimal(i as nat), 3) + ". "@ + name@ + " ("@
            + text::decimal(ndeps as nat) + " deps)"@,
{
    let mut s = "  ".to_owned();
    s.append(pad_left(text::usize_text(i).as_str(), 3).as_str());
    s.append(". ");
    s.append(name);
    s.append(" (");
    s.append(text::usize_text(ndeps).as_str());
    s.append(" deps)");
    s
}

/// The string that a line of TOML assigns, if it is one.
pub open spec fn assigned(line: Seq<char>) -> Option<Seq<char>> {
    match text::split_at_first(line, '=') {
        None => None,
        Some((_, rhs)) => {
            let v = text::trimmed(rhs);
            if v.len() >= 2 && v[0] == '"' && v.last() == '"' {
                Some(v.subrange(1, v.len() - 1))
            } else {
                None
            }
        },
    }
}

/// Gives the string that a line of TOML assigns, if it is one.
pub fn extract_toml_string_value(line: &str) -> (r: Option<String>)
    ensures
        match r {
            Some(s) => assigned(line@) == Some(s@),
            None => assigned(line@) is None,
        },
{
    match text::split_once(line, '=') {
        None => None,
        Some(lr) => {
            let v = text::trim(lr.1.as_str());
            let cs = text::chars_of(v.as_str());
            let n: usize = cs.len();
            if n >= 2 && cs[0] == '"' && cs[n - 1] == '"' {
                Some(text::string_of(text::part(cs.as_slice(), 1, n - 1).as_slice()))
            } else {
                None
            }
        },
    }
}

/// What the lines of a manifest say so far: whether they are in the package's table, and its name.
pub open spec fn package_state(lines: Seq<Seq<char>>) -> (bool, Option<Seq<char>>)
    decreases lines.len(),
{
    if lines.len() == 0 {
        (false, None)
    } else {
        let (inside, found) = package_state(lines.drop_last());
        let t = text::trimmed(lines.last());
        if found is Some {
            (inside, found)
        } else if t == "[package]"@ {
            (true, None)
        } else if t.len() > 0 && t[0] == '[' {
            (false, None)
        } else if inside && "name"@.is_prefix_of(t) {
            (inside, assigned(t))
        } else {
            (inside, None)
        }
    }
}

proof fn package_state_stays(lines: Seq<Seq<char>>, n: int)
    requires
        0 <= n <= lines.len(),
        package_state(lines.take(n)).1 is Some,
    ensures
        package_state(lines).1 == package_state(lines.take(n)).1,
    decreases lines.len(),
{
    if n == lines.len() {
        assert(lines.take(n) =~= lines);
    } else {
        assert(lines.drop_last().take(n) =~= lines.take(n));
        package_state_stays(lines.drop_last(), n);
    }
}

/// The name of the package that a manifest describes: the first that is assigned in the table
/// `[package]`.
pub fn member_in_manifest(contents: &str) -> (r: Option<String>)
    ensures
        match r {
            Some(n) => package_state(text::lines_of(contents@)).1 == Some(n@),
            None => package_state(text::lines_of(contents@)).1 is None,
        },
{
    let lines = text::lines(contents);
    let ghost ls = text::lines_of(contents@);
    let mut in_package = false;
    assert(ls.take(0) =~= Seq::empty());
    for i in 0..lines.len()
        invariant
            lines.deep_view() == ls,
            ls == text::lines_of(contents@),
            package_state(ls.take(i as int)) == (in_package, None::<Seq<char>>),
    {
        proof {
            assert(ls.take(i + 1).drop_last() =~= ls.take(i as int));
            assert(ls[i as int] == lines@[i as int]@);
        }
        let t = text::trim(lines[i].as_str());
        let cs = text::chars_of(t.as_str());
        if text::str_eq(t.as_str(), "[package]") {
            in_package = true;
        } else if cs.len() > 0 && cs[0] == '[' {
            in_package = false;
        } else if in_package && text::starts_with(t.as_str(), "name") {
            match extract_toml_string_value(t.as_str()) {
                Some(name) => {
                    proof {
                        package_state_stays(ls, i + 1);
                    }
                    return Some(name);
                },
                None => {},
            }
        }
    }
    assert(ls.take(ls.len() as int) =~= ls);
    None
}

/// The options of a build that were given, and its targets.
pub struct BuildOptions {
    pub jobs: Option<usize>,
    pub repo_root: Option<String>,
    pub targets: Vec<String>,
}

/// What [`BuildOptions`] hold.
#[verifier::ext_equal]
pub struct OptionsView {
    pub jobs: Option<nat>,
    pub repo_root: Option<Seq<char>>,
    pub targets: Seq<Seq<char>>,
}

impl DeepView for BuildOptions {
    type V = OptionsView;

    open spec fn deep_view(&self) -> OptionsView {
        OptionsView {
            jobs: match self.jobs {
                Some(n) => Some(n as nat),
                None => None,
            },
            repo_root: match self.repo_root {
                Some(p) => Some(p@),
                None => None,
            },
            targets: self.targets.deep_view(),
        }
    }
}

/// The number that an argument stands for, if it fits.
pub open spec fn job_count(s: Seq<char>) -> Option<nat> {
    let n = if s.len() > 0 && s[0] == '+' {
        text::digits_value(s.skip(1))
    } else {
        text::digits_value(s)
    };
    match n {
        Some(v) => if v <= usize::MAX {
            Some(v)
        } else {
            None
        },
        None => None,
    }
}

/// The options that arguments add to others: `-j` and `--repo-root` take the next argument, and any
/// other argument is a target. An option without its argument, and a count that is no number, are
/// errors.
pub open spec fn with_args(o: OptionsView, args: Seq<Seq<char>>) -> Result<OptionsView, Seq<char>>
    decreases args.len(),
{
    if args.len() == 0 {
        Ok(o)
    } else if args[0] == "-j"@ {
        if args.len() < 2 {
            Err("missing job count"@)
        } else {
            match job_count(args[1]) {
                Some(n) => with_args(OptionsView { jobs: Some(n), ..o }, args.skip(2)),
                None => Err("invalid job count"@),
            }
        }
    } else if args[0] == "--repo-root"@ {
        if args.len() < 2 {
            Err("missing repo root"@)
        } else {
            with_args(OptionsView { repo_root: Some(args[1]), ..o }, args.skip(2))
        }
    } else {
        with_args(OptionsView { targets: o.targets.push(args[0]), ..o }, args.skip(1))
    }
}

/// No options and no targets.
pub open spec fn no_options() -> OptionsView {
    OptionsView { jobs: None, repo_root: None, targets: Seq::empty() }
}

fn read_count(s: &str) -> (r: Option<usize>)
    ensures
        match r {
            Some(n) => job_count(s@) == Some(n as nat),
            None => job_count(s@) is None,
        },
{
    let cs = text::chars_of(s);
    let from: usize = if cs.len() > 0 && cs[0] == '+' {
        1
    } else {
        0
    };
    assert(s@.skip(0) =~= s@);
    match text::read_digits(cs.as_slice(), from, usize::MAX as u64) {
        Some(n) => Some(n as usize),
        None => None,
    }
}

/// Reads the arguments of a build.
pub fn read_build_args(args: &Vec<String>) -> (r: Result<BuildOptions, String>)
    ensures
        match r {
            Ok(o) => with_args(no_options(), args.deep_view()) == Ok::<OptionsView, Seq<char>>(
                o.deep_view(),
            ),
            Err(e) => with_args(no_options(), args.deep_view()) == Err::<OptionsView, Seq<char>>(
                e@,
            ),
        },
{
    let ghost a = args.deep_view();
    let n: usize = args.len();
    let mut o = BuildOptions { jobs: None, repo_root: None, targets: Vec::new() };
    let mut i: usize = 0;
    proof {
        assert(o.deep_view().targets =~= Seq::<Seq<char>>::empty());
        assert(a.skip(0) =~= a);
    }
    while i < n
        invariant
            a == args.deep_view(),
            n == a.len(),
            i <= n,
            with_args(no_options(), a) == with_args(o.deep_view(), a.skip(i as int)),
        decreases n - i,
    {
        let ghost rest = a.skip(i as int);
        assert(rest[0] == args@[i as int]@);
        if text::str_eq(args[i].as_str(), "-j") {
            if i + 1 >= n {
                return Err("missing job count".to_owned());
            }
            assert(rest[1] == args@[i + 1]@);
            match read_count(args[i + 1].as_str()) {
                Some(c) => {
                    o.jobs = Some(c);
                },
                None => {
                    return Err("invalid job count".to_owned());
                },
            }
            assert(rest.skip(2) =~= a.skip(i + 2));
            i = i + 2;
        } else if text::str_eq(args[i].as_str(), "--repo-root") {
            if i + 1 >= n {
                return Err("missing repo root".to_owned());
            }
            assert(rest[1] == args@[i + 1]@);
            o.repo_root = Some(args[i + 1].clone());
            assert(rest.skip(2) =~= a.skip(i + 2));
            i = i + 2;
        } else {
            let ghost before = o.targets.deep_view();
            o.targets.push(args[i].clone());
            assert(o.targets.deep_view() =~= before.push(rest[0]));
            assert(rest.skip(1) =~= a.skip(i + 1));
            i = i + 1;
        }
    }
    assert(a.skip(n as int) =~= Seq::empty());
    Ok(o)
}

/// A target is the path of a derivation exactly if it lies in the store and ends like one.
pub proof fn derivations_are_told_by_their_path(x: Seq<char>, t: Seq<char>)
    ensures
        is_drv_path("/nix/store/"@ + x + ".drv"@),
        is_drv_path(t) ==> "/nix/store/"@.is_prefix_of(t) && ".drv"@.is_suffix_of(t),
{
    let s = "/nix/store/"@ + x + ".drv"@;
    let p = "/nix/store/"@;
    let q = ".drv"@;
    assert(p =~= s.subrange(0, p.len() as int));
    assert(q =~= s.subrange(s.len() - q.len(), s.len() as int));
}

/// The first backend that knows a target resolves it.
pub proof fn the_first_backend_resolves(
    backends: Seq<&dyn Backend>,
    name: Seq<char>,
    repo: RepoView,
    i: int,
)
    requires
        0 <= i < backends.len(),
        forall|k: int| 0 <= k < i ==> (#[trigger] backends[k]).attr_of(name, repo) is None,
    ensures
        backends[i].attr_of(name, repo) matches Some(a) ==> attr_from(backends, 0, name, repo)
            == Some((i, a)),
        i == backends.len() - 1 && backends[i].attr_of(name, repo) is None ==> attr_from(
            backends,
            0,
            name,
            repo,
        ) is None,
{
    attrs_passed_over(backends, name, repo, i, 0);
    reveal_with_fuel(attr_from, 2);
}

proof fn attrs_passed_over(
    backends: Seq<&dyn Backend>,
    name: Seq<char>,
    repo: RepoView,
    i: int,
    k: int,
)
    requires
        0 <= k <= i < backends.len(),
        forall|j: int| 0 <= j < i ==> (#[trigger] backends[j]).attr_of(name, repo) is None,
    ensures
        attr_from(backends, k, name, repo) == attr_from(backends, i, name, repo),
    decreases i - k,
{
    if k < i {
        assert(backends[k].attr_of(name, repo) is None);
        attrs_passed_over(backends, name, repo, i, k + 1);
    }
}

/// Of all backends, every target is among those that can be named to the user.
pub proof fn targets_of_all_backends_are_listed(
    backends: Seq<&dyn Backend>,
    repo: RepoView,
    i: int,
    t: Seq<char>,
)
    requires
        0 <= i < backends.len(),
        backends[i].targets(repo).contains(t),
    ensures
        all_targets(backends, repo).contains(t),
    decreases backends.len(),
{
    let f = backends.drop_last();
    let a = all_targets(f, repo);
    let b = backends.last().targets(repo);
    if i < f.len() {
        assert(f[i] == backends[i]);
        targets_of_all_backends_are_listed(f, repo, i, t);
        let k = choose|k: int| 0 <= k < a.len() && a[k] == t;
        assert((a + b)[k] == t);
    } else {
        let k = choose|k: int| 0 <= k < b.len() && b[k] == t;
        assert((a + b)[a.len() + k] == t);
    }
}

/// The links are made for `out` first and then for each other output once, in their order.
pub proof fn out_is_linked_first(l: Seq<Seq<char>>, o: Seq<char>)
    requires
        l.no_duplicates(),
    ensures
        link_order(l).len() > 0,
        link_order(l)[0] == "out"@,
        link_order(l).contains(o) <==> o == "out"@ || l.contains(o),
        link_order(l).no_duplicates(),
{
    others_are_kept(l, o);
    let r = link_order(l);
    let t = others(l);
    assert(r[0] == "out"@);
    assert forall|i: int, j: int| 0 <= i < r.len() && 0 <= j < r.len() && i != j implies r[i]
        != r[j] by {
        if i > 0 && j > 0 {
            assert(r[i] == t[i - 1] && r[j] == t[j - 1]);
        } else if i == 0 {
            assert(r[j] == t[j - 1]);
            others_are_kept(l, t[j - 1]);
            assert(t.contains(t[j - 1]));
        } else {
            assert(r[i] == t[i - 1]);
            others_are_kept(l, t[i - 1]);
            assert(t.contains(t[i - 1]));
        }
    }
    if t.contains(o) {
        let k = choose|k: int| 0 <= k < t.len() && t[k] == o;
        assert(r[k + 1] == o);
    }
    if r.contains(o) {
        let k = choose|k: int| 0 <= k < r.len() && r[k] == o;
        if k > 0 {
            assert(t[k - 1] == o);
        }
    }
}

proof fn others_are_kept(l: Seq<Seq<char>>, o: Seq<char>)
    requires
        l.no_duplicates(),
    ensures
        others(l).contains(o) <==> l.contains(o) && o != "out"@,
        others(l).no_duplicates(),
    decreases l.len(),
{
    if l.len() > 0 {
        let f = l.drop_last();
        let z = l.last();
        assert(f.no_duplicates());
        others_are_kept(f, o);
        others_are_kept(f, z);
        assert(l =~= f.push(z));
        crate::graph::pushed(f, z, o);
        crate::graph::pushed(others(f), z, o);
        if f.contains(z) {
            let k = choose|k: int| 0 <= k < f.len() && f[k] == z;
            assert(l[k] == l[l.len() - 1]);
        }
    }
}

/// Cleaning a member removes what lies in the cache under the key of its derivation and what the
/// compiler keeps for it, and nothing else.
pub proof fn cleaning_a_member_is_about_its_derivation(root: Seq<char>, d: String)
    ensures
        ({
            let r = removals(root, Clean::Member(d));
            let k = digest::blake3_hex(encode_utf8(d@));
            &&& r.len() == 2
            &&& r[0].1 == path::joined(path::joined(root, "artifacts"@), k)
            &&& r[1].1 == path::joined(path::joined(root, "incremental"@), k)
        }),
        removals(root, Clean::Incremental).len() == 1,
        removals(root, Clean::Incremental)[0].1 == path::joined(root, "incremental"@),
{
}

/// Cleaning everything takes in whatever a build leaves in the cache: artifacts, what the compiler
/// keeps, and the places where builds happen.
pub proof fn cleaning_all_takes_in_every_place(root: Seq<char>)
    ensures
        ({
            let r = removals(root, Clean::All);
            &&& exists|i: int|
                0 <= i < r.len() && (#[trigger] r[i]).1 == path::joined(root, "artifacts"@)
            &&& exists|i: int|
                0 <= i < r.len() && (#[trigger] r[i]).1 == path::joined(root, "incremental"@)
            &&& exists|i: int| 0 <= i < r.len() && (#[trigger] r[i]).1 == path::joined(root, "tmp"@)
            &&& exists|i: int| 0 <= i < r.len() && (#[trigger] r[i]).1 == path::joined(root, "rmeta"@)
            &&& exists|i: int| 0 <= i < r.len() && (#[trigger] r[i]).1 == path::joined(root, "build"@)
        }),
{
    let r = removals(root, Clean::All);
    assert(r[0].1 == path::joined(root, "artifacts"@));
    assert(r[1].1 == path::joined(root, "incremental"@));
    assert(r[2].1 == path::joined(root, "tmp"@));
    assert(r[3].1 == path::joined(root, "rmeta"@));
    assert(r[4].1 == path::joined(root, "build"@));
}

/// A number of jobs is read as it is written, also behind a plus sign.
pub proof fn job_counts_read_back(n: nat)
    requires
        n <= usize::MAX,
    ensures
        job_count(text::decimal(n)) == Some(n),
        job_count(seq!['+'] + text::decimal(n)) == Some(n),
{
    text::decimal_value(n);
    assert(text::decimal(n)[0] != '+');
    assert((seq!['+'] + text::decimal(n)).skip(1) =~= text::decimal(n));
}

/// The options of a build are taken with their values wherever they stand, a later one counting
/// before an earlier one; all other arguments are targets, in order.
pub proof fn build_arguments_are_told_apart(
    o: OptionsView,
    v: Seq<char>,
    n: nat,
    rest: Seq<Seq<char>>,
)
    requires
        n <= usize::MAX,
    ensures
        with_args(o, seq!["-j"@, text::decimal(n)] + rest) == with_args(
            OptionsView { jobs: Some(n), ..o },
            rest,
        ),
        with_args(o, seq!["--repo-root"@, v] + rest) == with_args(
            OptionsView { repo_root: Some(v), ..o },
            rest,
        ),
        v != "-j"@ && v != "--repo-root"@ ==> with_args(o, seq![v] + rest) == with_args(
            OptionsView { targets: o.targets.push(v), ..o },
            rest,
        ),
        with_args(o, seq!["-j"@]) == Err::<OptionsView, Seq<char>>("missing job count"@),
        with_args(o, seq!["--repo-root"@]) == Err::<OptionsView, Seq<char>>("missing repo root"@),
        job_count(v) is None ==> with_args(o, seq!["-j"@, v] + rest) == Err::<
            OptionsView,
            Seq<char>,
        >("invalid job count"@),
        with_args(o, Seq::empty()) == Ok::<OptionsView, Seq<char>>(o),
{
    reveal_strlit("-j");
    reveal_strlit("--repo-root");
    assert("-j"@.len() != "--repo-root"@.len());
    job_counts_read_back(n);
    let a = seq!["-j"@, text::decimal(n)] + rest;
    let b = seq!["--repo-root"@, v] + rest;
    let c = seq![v] + rest;
    assert(a.skip(2) =~= rest);
    assert(b.skip(2) =~= rest);
    assert(c.skip(1) =~= rest);
    let d = seq!["-j"@, v] + rest;
    assert(d[1] == v);
}

/// A string that is assigned is read as it stands between its quotes.
pub proof fn assigned_strings_read_back(key: Seq<char>, v: Seq<char>)
    requires
        !key.contains('='),
    ensures
        assigned(key + seq!['='] + (seq!['"'] + v + seq!['"'])) == Some(v),
{
    let q = seq!['"'] + v + seq!['"'];
    let line = key + seq!['='] + q;
    text::split_is_at_the_first(line, '=');
    assert(line[key.len() as int] == '=');
    assert(line.contains('='));
    let (a, b) = text::split_at_first(line, '=')->Some_0;
    if a.len() < key.len() {
        assert(line[a.len() as int] == '=');
        assert(key[a.len() as int] == '=');
    }
    if a.len() > key.len() {
        assert(a[key.len() as int] == line[key.len() as int]);
        assert(a.contains('='));
    }
    assert(b =~= line.skip(key.len() as int + 1));
    assert(b =~= q);
    assert(!text::white_space('"'));
    assert(q[0] == '"' && q.last() == '"');
    assert(text::lead(q, true) == 0);
    assert(q.skip(0) =~= q);
    assert(text::trail(q) == 0);
    assert(q.take(q.len() as int) =~= q);
    assert(q.subrange(1, q.len() - 1) =~= v);
}

/// A manifest names its package in the table `[package]` alone, and the first name counts.
pub proof fn packages_are_named_in_their_table(ls: Seq<Seq<char>>, t: Seq<char>)
    ensures
        package_state(ls).1 is Some ==> package_state(ls.push(t)) == package_state(ls),
        package_state(ls).1 is None && text::trimmed(t) == "[package]"@ ==> package_state(
            ls.push(t),
        ) == (true, None::<Seq<char>>),
        package_state(ls).1 is None && text::trimmed(t) != "[package]"@ && text::trimmed(t).len() > 0
            && text::trimmed(t)[0] == '[' ==> package_state(ls.push(t)) == (
            false,
            None::<Seq<char>>,
        ),
        package_state(ls) == (true, None::<Seq<char>>) && "name"@.is_prefix_of(text::trimmed(t))
            ==> package_state(ls.push(t)).1 == assigned(text::trimmed(t)),
        package_state(ls) == (false, None::<Seq<char>>) ==> package_state(ls.push(t)).1 is None,
        package_state(Seq::empty()) == (false, None::<Seq<char>>),
{
    assert(ls.push(t).drop_last() =~= ls);
    reveal_strlit("name");
    reveal_strlit("[package]");
    let u = text::trimmed(t);
    if "name"@.is_prefix_of(u) {
        assert(u.subrange(0, 4)[0] == 'n');
        assert(u[0] == 'n');
    }
    if u == "[package]"@ {
        assert(u[0] == '[');
    }
}

/// A column is filled up to its width, on the one side or the other, and never cut.
pub proof fn columns_are_filled(s: Seq<char>, n: nat)
    ensures
        padded_left(s, n).len() == if s.len() < n {
            n
        } else {
            s.len()
        },
        padded_right(s, n).len() == padded_left(s, n).len(),
        s.is_suffix_of(padded_left(s, n)),
        s.is_prefix_of(padded_right(s, n)),
{
    let a = padded_left(s, n);
    let b = padded_right(s, n);
    assert(a.subrange(a.len() - s.len(), a.len() as int) =~= s);
    assert(b.subrange(0, s.len() as int) =~= s);
}

/// Only the commands of shims start with two underscores.
pub proof fn shim_commands_are_marked(arg: &str, r: bool)
    requires
        call_ensures(is_internal, (arg,), r),
    ensures
        r <==> arg@.len() >= 2 && arg@[0] == '_' && arg@[1] == '_',
{
    reveal_strlit("__");
    let p = "__"@;
    if p.is_prefix_of(arg@) {
        assert(arg@.subrange(0, 2)[0] == p[0]);
        assert(arg@.subrange(0, 2)[1] == p[1]);
    }
    if arg@.len() >= 2 && arg@[0] == '_' && arg@[1] == '_' {
        assert(p =~= arg@.subrange(0, 2));
    }
}

/// The choice of units goes by the names of all backends, each ended by a zero byte, and by what
/// `bob.nix` holds.
pub proof fn choices_go_by_backends_and_declarations(backends: Seq<&dyn Backend>, nix: Seq<u8>)
    ensures
        backends.len() == 0 ==> predicate_bytes(backends, None).len() == 0,
        backends.len() > 0 ==> predicate_bytes(backends, None) == predicate_bytes(
            backends.drop_last(),
            None,
        ) + encode_utf8(backends.last().id_of()) + seq![0u8],
        predicate_bytes(backends, Some(nix)) == predicate_bytes(backends, None) + nix,
{
    if backends.len() > 0 {
        assert(predicate_bytes(backends, None) =~= predicate_bytes(backends.drop_last(), None)
            + encode_utf8(backends.last().id_of()) + seq![0u8]);
    }
    assert(predicate_bytes(backends, Some(nix)) =~= predicate_bytes(backends, None) + nix);
}

/// A target that is not known is named, and so are the first ten of those that are, in order.
pub proof fn unknown_targets_are_named(name: Seq<char>, targets: Seq<Seq<char>>)
    ensures
        ("unknown target '"@ + name + "'"@).is_prefix_of(unknown_target(name, targets)),
        sorting::sorted(targets).len() == 0 ==> unknown_target(name, targets) == "unknown target '"@
            + name + "'"@,
        0 < sorting::sorted(targets).len() <= 10 ==> text::joined(
            sorting::sorted(targets),
            ", "@,
        ).is_suffix_of(unknown_target(name, targets)),
        sorting::sorted(targets).len() > 10 ==> text::joined(
            sorting::sorted(targets).take(10),
            ", "@,
        ).is_suffix_of(unknown_target(name, targets)),
{
    reveal_strlit("'");
    reveal_strlit("'. some available: ");
    let h = "unknown target '"@ + name + "'"@;
    let u = unknown_target(name, targets);
    assert(u.subrange(0, h.len() as int) =~= h);
    let all = sorting::sorted(targets);
    let some = if all.len() > 10 {
        all.take(10)
    } else {
        all
    };
    if some.len() > 0 {
        let j = text::joined(some, ", "@);
        assert(u.subrange(u.len() - j.len(), u.len() as int) =~= j);
    }
}

/// A value of at most 120 bytes is shown whole. Of a longer one the first 120 bytes are shown, with
/// three dots behind them, where they end between characters.
pub proof fn long_values_are_cut(v: Seq<char>)
    ensures
        encode_utf8(v).len() <= 120 ==> shown_value(v) == v,
        encode_utf8(v).len() > 120 && (exists|k: int| ends_at_120(v, k)) ==> exists|k: int|
            0 <= k <= v.len() && encode_utf8(#[trigger] v.take(k)).len() == 120 && shown_value(v)
                == v.take(k) + seq!['.', '.', '.'],
{
    reveal_strlit("...");
    assert("..."@ =~= seq!['.', '.', '.']);
    if encode_utf8(v).len() > 120 && (exists|k: int| ends_at_120(v, k)) {
        let k = choose|k: int| ends_at_120(v, k);
        assert(encode_utf8(v.take(k)).len() == 120);
    }
}

/// The first backend whose shims use a command takes it.
pub proof fn the_first_shim_counts(
    backends: &Vec<&dyn Backend>,
    cmd: &str,
    r: Option<usize>,
    j: int,
)
    requires
        call_ensures(dispatch_internal, (backends, cmd), r),
        0 <= j < backends@.len(),
        backends@[j].internal() == Some(cmd@),
    ensures
        r matches Some(i) && i <= j && backends@[i as int].internal() == Some(cmd@),
{
}

/// A dot means the project around the working directory. What lies in the store and ends as
/// derivations do is one. Anything else is a name.
pub proof fn targets_are_told_apart(target: &str, r: Target)
    requires
        call_ensures(read_target, (target,), r),
    ensures
        target@ == seq!['.'] ==> r is Here,
        "/nix/store/"@.is_prefix_of(target@) && ".drv"@.is_suffix_of(target@) ==> (r matches
            Target::Derivation(d) && d@ == target@),
        target@ != seq!['.'] && !(".drv"@.is_suffix_of(target@)) ==> (r matches Target::Named(n)
            && n@ == target@),
        target@ != seq!['.'] && !("/nix/store/"@.is_prefix_of(target@)) ==> (r matches Target::Named(
            n,
        ) && n@ == target@),
{
    reveal_strlit(".");
    reveal_strlit(".drv");
    assert("."@ =~= seq!['.']);
}

/// Cleaning everything says that it is done. Cleaning anything else says something exactly where
/// there was nothing to remove.
pub proof fn cleaning_nothing_is_reported(what: &Clean, name: &str, removed: bool, r: Option<String>)
    requires
        call_ensures(clean_report, (what, name, removed), r),
    ensures
        *what is All ==> (r matches Some(s) && s@ == "done"@),
        !(*what is All) ==> (r is Some <==> !removed),
        *what is Member && !removed ==> text::occurs(r->Some_0@, name@),
{
    if *what is Member && !removed {
        let a = "nothing cached for '"@;
        let s = r->Some_0@;
        assert(s.subrange(a.len() as int, (a.len() + name@.len()) as int) =~= name@);
        assert(text::has_at(s, a.len() as int, name@));
    }
}

/// A row of the status holds its label, the number of entries and their size, and a row of the graph
/// its place, its name and the number of dependencies.
pub proof fn rows_hold_what_they_are_of(
    label: &str,
    count: usize,
    size: &str,
    i: usize,
    name: &str,
    ndeps: usize,
    s: String,
    g: String,
)
    requires
        call_ensures(status_row, (label, count, size), s),
        call_ensures(graph_row, (i, name, ndeps), g),
    ensures
        text::occurs(s@, label@),
        text::occurs(s@, text::decimal(count as nat) + " entries   "@ + size@),
        text::occurs(
            g@,
            text::decimal(i as nat) + ". "@ + name@ + " ("@ + text::decimal(ndeps as nat) + " deps)"@,
        ),
{
    let c = text::decimal(count as nat);
    let pr = padded_right(label@, 14);
    let pl = padded_left(c, 5);
    assert(s@.subrange("  "@.len() as int, ("  "@.len() + label@.len()) as int) =~= label@);
    assert(text::has_at(s@, "  "@.len() as int, label@));
    let e = c + " entries   "@ + size@;
    let k = s@.len() - e.len();
    assert(pl.subrange(pl.len() - c.len(), pl.len() as int) =~= c);
    let h = "  "@ + pr + " "@ + pl.take(pl.len() - c.len());
    assert(pl =~= pl.take(pl.len() - c.len()) + c);
    assert(s@ =~= h + e);
    assert(s@.subrange(k, s@.len() as int) =~= e);
    assert(text::has_at(s@, k, e));
    let d = text::decimal(i as nat);
    let dl = padded_left(d, 3);
    let f = d + ". "@ + name@ + " ("@ + text::decimal(ndeps as nat) + " deps)"@;
    assert(dl.subrange(dl.len() - d.len(), dl.len() as int) =~= d);
    assert(dl =~= dl.take(dl.len() - d.len()) + d);
    let m = "  "@ + dl.take(dl.len() - d.len());
    assert(g@ =~= m + f);
    assert(g@.subrange(m.len() as int, (m.len() + f.len()) as int) =~= f);
    assert(text::has_at(g@, m.len() as int, f));
}

} // verus!
