//! From a target to its derivation, by way of `nix-instantiate` on `bob.nix`.
//!
//! What an evaluation gave is kept under a key of all that decides it: the backend's lock hash,
//! `bob.nix`, and the files that `bob.toml` declares as inputs. Source changes are not among them:
//! they are tracked per unit. What a source directory holds is hashed, and the hash is kept beside
//! the times of the files, so that an unchanged directory is not read again.
use crate::digest;
use crate::path;
use crate::sorting;
use crate::strmap;
use crate::strmap::StrMap;
use crate::text;
use vstd::prelude::*;
use vstd::utf8::encode_utf8;

verus! {

/// The derivation of a target.
pub struct ResolveResult {
    pub drv_path: String,
}

/// The results of evaluations, known by their directory.
pub struct EvalCache {
    cache_dir: String,
}

impl View for EvalCache {
    type V = Seq<char>;

    closed spec fn view(&self) -> Seq<char> {
        self.cache_dir@
    }
}

/// A file that matched a declared input: its path, its path below the repository, and its contents
/// if it can be read.
pub struct EvalFile {
    pub path: String,
    pub rel: String,
    pub bytes: Option<Vec<u8>>,
}

/// What an [`EvalFile`] holds.
#[verifier::ext_equal]
pub struct EvalView {
    pub path: Seq<char>,
    pub rel: Seq<char>,
    pub bytes: Option<Seq<u8>>,
}

impl DeepView for EvalFile {
    type V = EvalView;

    open spec fn deep_view(&self) -> EvalView {
        EvalView {
            path: self.path@,
            rel: self.rel@,
            bytes: match self.bytes {
                Some(b) => Some(b@),
                None => None,
            },
        }
    }
}

/// The bytes of declared inputs: each declaration behind a mark.
pub open spec fn glob_bytes(globs: Seq<Seq<char>>) -> Seq<u8>
    decreases globs.len(),
{
    if globs.len() == 0 {
        Seq::empty()
    } else {
        glob_bytes(globs.drop_last()) + encode_utf8("\0glob\0"@) + encode_utf8(globs.last())
    }
}

/// The bytes of a matched file: its path behind a mark, and its contents. A file that cannot be
/// read has none.
pub open spec fn file_bytes(f: EvalView) -> Seq<u8> {
    match f.bytes {
        Some(b) => encode_utf8("\0file\0"@) + encode_utf8(f.rel) + seq![0u8] + b,
        None => Seq::empty(),
    }
}

/// The bytes of matched files.
pub open spec fn files_bytes(l: Seq<(Seq<char>, EvalView)>) -> Seq<u8>
    decreases l.len(),
{
    if l.len() == 0 {
        Seq::empty()
    } else {
        files_bytes(l.drop_last()) + file_bytes(l.last().1)
    }
}

/// Matched files with the texts by which they sort.
pub open spec fn keyed(files: Seq<EvalView>) -> Seq<(Seq<char>, EvalView)> {
    Seq::new(files.len(), |i: int| (path::order_key(files[i].path), files[i]))
}

/// The bytes of all that is declared: the declarations in order, then the files that match them, in
/// order and each once. Without a declaration there are none.
pub open spec fn input_bytes(globs: Seq<Seq<char>>, files: Seq<EvalView>) -> Seq<u8> {
    if globs.len() == 0 {
        Seq::empty()
    } else {
        glob_bytes(sorting::sorted(globs)) + files_bytes(
            strmap::listing(strmap::collected(keyed(files))),
        )
    }
}

/// Mixes declared inputs into a hash: the declarations themselves, so that one more or less
/// counts even where no file matches, and the contents of the files that match.
pub fn hash_eval_inputs(h: &mut blake3::Hasher, globs: &Vec<String>, files: Vec<EvalFile>)
    requires
        digest::hasher_input(*old(h)) is Some,
    ensures
        digest::hasher_input(*final(h)) == Some(
            digest::hasher_input(*old(h))->Some_0 + input_bytes(
                globs.deep_view(),
                files.deep_view(),
            ),
        ),
{
    let ghost start = digest::hasher_input(*h)->Some_0;
    let ghost gs = globs.deep_view();
    if globs.len() == 0 {
        assert(start + input_bytes(gs, files.deep_view()) =~= start);
        return;
    }
    let mut copy: Vec<String> = Vec::new();
    for i in 0..globs.len()
        invariant
            gs == globs.deep_view(),
            copy.deep_view() == gs.take(i as int),
    {
        let ghost before = copy.deep_view();
        copy.push(globs[i].clone());
        assert(copy.deep_view() =~= before.push(gs[i as int]));
        assert(gs.take(i + 1) =~= gs.take(i as int).push(gs[i as int]));
    }
    assert(gs.take(gs.len() as int) =~= gs);
    let order = sorting::sort(copy);
    let ghost os = sorting::sorted(gs);
    assert(glob_bytes(os.take(0)) =~= Seq::empty());
    assert(start + glob_bytes(os.take(0)) =~= start);
    for i in 0..order.len()
        invariant
            order.deep_view() == os,
            digest::hasher_input(*h) == Some(start + glob_bytes(os.take(i as int))),
    {
        digest::update(h, "\0glob\0".as_bytes());
        digest::update(h, order[i].as_str().as_bytes());
        proof {
            assert(order.deep_view()[i as int] == os[i as int]);
            assert(os.take(i + 1).drop_last() =~= os.take(i as int));
            assert(digest::hasher_input(*h)->Some_0 =~= start + glob_bytes(os.take(i + 1)));
        }
    }
    assert(os.take(os.len() as int) =~= os);
    let ghost behind = start + glob_bytes(os);
    let m = by_order(files);
    let n: usize = m.len();
    let ghost l = strmap::listing(m@);
    assert(behind + files_bytes(l.take(0)) =~= behind);
    for i in 0..n
        invariant
            l == strmap::listing(m@),
            n == l.len(),
            digest::hasher_input(*h) == Some(behind + files_bytes(l.take(i as int))),
    {
        let f = m.value(i);
        assert(l.take(i + 1).drop_last() =~= l.take(i as int));
        match &f.bytes {
            Some(b) => {
                digest::update(h, "\0file\0".as_bytes());
                digest::update(h, f.rel.as_str().as_bytes());
                digest::update(h, &[0u8]);
                digest::update(h, b.as_slice());
            },
            None => {},
        }
        assert(digest::hasher_input(*h)->Some_0 =~= behind + files_bytes(l.take(i + 1)));
    }
    assert(l.take(l.len() as int) =~= l);
    assert(digest::hasher_input(*h)->Some_0 =~= start + input_bytes(gs, files.deep_view()));
}

fn by_order(files: Vec<EvalFile>) -> (r: StrMap<EvalFile>)
    ensures
        r@ == strmap::collected(keyed(files.deep_view())),
{
    let ghost raw = files@;
    let ghost fs = files.deep_view();
    let ghost ks = keyed(fs);
    let mut m: StrMap<EvalFile> = StrMap::new();
    assert(ks.take(0) =~= Seq::empty());
    for f in it: files
        invariant
            it.seq() == raw,
            fs.len() == raw.len(),
            ks == keyed(fs),
            forall|i: int| 0 <= i < raw.len() ==> (#[trigger] raw[i]).deep_view() == fs[i],
            m@ == strmap::collected(ks.take(it.index() as int)),
    {
        proof {
            let i = it.index() as int;
            assert(f.deep_view() == fs[i]);
            assert(ks.take(i + 1).drop_last() =~= ks.take(i));
        }
        m.insert(path::sort_key(f.path.as_str()), f);
    }
    assert(ks.take(ks.len() as int) =~= ks);
    m
}

/// The bytes that decide what an evaluation gives: the backend's lock hash, `bob.nix`, and the
/// inputs that `bob.toml` declares, where there is one.
pub open spec fn key_bytes(
    lock_hash: Seq<char>,
    bob_nix: Seq<u8>,
    declared: Option<(Seq<Seq<char>>, Seq<EvalView>)>,
) -> Seq<u8> {
    encode_utf8(lock_hash) + encode_utf8("\0bob.nix\0"@) + bob_nix + match declared {
        Some((globs, files)) => input_bytes(globs, files),
        None => Seq::empty(),
    }
}

/// The inputs that `bob.toml` declares, and the files that match them.
pub struct Declared {
    pub globs: Vec<String>,
    pub files: Vec<EvalFile>,
}

impl DeepView for Declared {
    type V = (Seq<Seq<char>>, Seq<EvalView>);

    open spec fn deep_view(&self) -> (Seq<Seq<char>>, Seq<EvalView>) {
        (self.globs.deep_view(), self.files.deep_view())
    }
}

/// Gives the key of an evaluation: 16 digits.
pub fn eval_key(lock_hash: &str, bob_nix: &[u8], declared: Option<Declared>) -> (r: String)
    ensures
        r@ == digest::short_hex(
            key_bytes(
                lock_hash@,
                bob_nix@,
                match declared {
                    Some(d) => Some(d.deep_view()),
                    None => None,
                },
            ),
            16,
        ),
        r@.len() == 16,
        digest::hex_text(r@),
{
    let mut h = digest::new_hasher();
    digest::update(&mut h, lock_hash.as_bytes());
    digest::update(&mut h, "\0bob.nix\0".as_bytes());
    digest::update(&mut h, bob_nix);
    let ghost want = key_bytes(
        lock_hash@,
        bob_nix@,
        match &declared {
            Some(d) => Some(d.deep_view()),
            None => None,
        },
    );
    match declared {
        Some(d) => {
            hash_eval_inputs(&mut h, &d.globs, d.files);
        },
        None => {},
    }
    assert(digest::hasher_input(h)->Some_0 =~= want);
    digest::cut(digest::finish(&h).as_str(), 16)
}

/// Where the result of an evaluation is kept. The target is hashed, so that its dots and slashes
/// make no directories.
pub open spec fn kept_at(dir: Seq<char>, target: Seq<char>, key: Seq<char>) -> Seq<char> {
    path::joined(dir, digest::short_hex(encode_utf8(target), 16) + "."@ + key + ".drv"@)
}

/// The expression whose value is a target.
pub open spec fn target_expr(root: Seq<char>, attr: Seq<char>) -> Seq<char> {
    "(import "@ + root + "/bob.nix {})."@ + attr
}

/// What to do to resolve a target.
pub enum ResolveStep {
    /// The kept derivation is there: it is the result.
    Kept(ResolveResult),
    /// The expression has to be evaluated, and its result kept at this path.
    Evaluate { expr: String, keep_at: String },
}

impl EvalCache {
    /// The results below a cache root.
    pub fn new(cache_root: &str) -> (r: Self)
        ensures
            r@ == path::joined(cache_root@, "eval"@),
    {
        EvalCache { cache_dir: path::join(cache_root, "eval") }
    }

    /// Where the result of an evaluation is kept.
    pub fn cache_path(&self, target: &str, eval_key: &str) -> (r: String)
        ensures
            r@ == kept_at(self@, target@, eval_key@),
    {
        let mut name = digest::short_hash(target.as_bytes(), 16);
        name.append(".");
        name.append(eval_key);
        name.append(".drv");
        path::join(self.cache_dir.as_str(), name.as_str())
    }

    /// Decides how to resolve a target, given what is kept for it and whether that derivation is
    /// still there.
    pub fn resolve_one(
        &self,
        repo_root: &str,
        target: &str,
        attr: &str,
        eval_key: &str,
        kept: Option<(String, bool)>,
    ) -> (r: ResolveStep)
        ensures
            match r {
                ResolveStep::Kept(d) => kept matches Some(k) && k.1 && d.drv_path@ == k.0@,
                ResolveStep::Evaluate { expr, keep_at } => {
                    &&& kept matches Some(k) ==> !k.1
                    &&& expr@ == target_expr(repo_root@, attr@)
                    &&& keep_at@ == kept_at(self@, target@, eval_key@)
                },
            },
    {
        match kept {
            Some(k) => {
                if k.1 {
                    return ResolveStep::Kept(ResolveResult { drv_path: k.0 });
                }
            },
            None => {},
        }
        let mut expr = "(import ".to_owned();
        expr.append(repo_root);
        expr.append("/bob.nix {}).");
        expr.append(attr);
        ResolveStep::Evaluate { expr, keep_at: self.cache_path(target, eval_key) }
    }

    /// Reads the output of an evaluation: a derivation's path, or why there is none.
    pub fn evaluated(attr: &str, success: bool, stdout: &str, stderr: &str) -> (r: Result<
        ResolveResult,
        String,
    >)
        ensures
            ({
                let out = text::trimmed(stdout@);
                match r {
                    Ok(d) => success && ".drv"@.is_suffix_of(out) && d.drv_path@ == out,
                    Err(e) => {
                        ||| !success && e@ == "nix-instantiate failed for '"@ + attr@ + "': "@
                            + stderr@
                        ||| success && !".drv"@.is_suffix_of(out) && e@
                            == "unexpected nix-instantiate output: "@ + out
                    },
                }
            }),
    {
        if !success {
            let mut e = "nix-instantiate failed for '".to_owned();
            e.append(attr);
            e.append("': ");
            e.append(stderr);
            return Err(e);
        }
        let drv_path = text::trim(stdout);
        if !text::ends_with(drv_path.as_str(), ".drv") {
            let mut e = "unexpected nix-instantiate output: ".to_owned();
            e.append(drv_path.as_str());
            return Err(e);
        }
        Ok(ResolveResult { drv_path })
    }
}

/// A source file: its path below the directory of its unit, and, where they can be had, the seconds
/// and nanoseconds of its last change and its size.
pub struct SourceFile {
    pub rel: String,
    pub stat: Option<(i64, i64, u64)>,
}

impl DeepView for SourceFile {
    type V = (Seq<char>, Option<(i64, i64, u64)>);

    open spec fn deep_view(&self) -> (Seq<char>, Option<(i64, i64, u64)>) {
        (self.rel@, self.stat)
    }
}

/// The eight bytes of a number, the lowest first.
pub open spec fn le_bytes(n: u64) -> Seq<u8> {
    vstd::bytes::spec_u64_to_le_bytes(n)
}

/// The bytes that tell whether source files may have changed.
pub open spec fn stat_bytes(l: Seq<(Seq<char>, Option<(i64, i64, u64)>)>) -> Seq<u8>
    decreases l.len(),
{
    if l.len() == 0 {
        Seq::empty()
    } else {
        stat_bytes(l.drop_last()) + encode_utf8(l.last().0) + match l.last().1 {
            Some((secs, nanos, size)) => le_bytes(secs as u64) + le_bytes(nanos as u64) + le_bytes(
                size,
            ),
            None => Seq::empty(),
        }
    }
}

/// Gives the 32 digits that tell whether source files may have changed.
pub fn mtime_key(files: &Vec<SourceFile>) -> (r: String)
    ensures
        r@ == digest::short_hex(stat_bytes(files.deep_view()), 32),
        r@.len() == 32,
        digest::hex_text(r@),
{
    let ghost fs = files.deep_view();
    let mut h = digest::new_hasher();
    assert(fs.take(0) =~= Seq::empty());
    for i in 0..files.len()
        invariant
            fs == files.deep_view(),
            digest::hasher_input(h) == Some(stat_bytes(fs.take(i as int))),
    {
        let f = &files[i];
        digest::update(&mut h, f.rel.as_str().as_bytes());
        match f.stat {
            Some((secs, nanos, size)) => {
                digest::update(
                    &mut h,
                    vstd::bytes::u64_to_le_bytes(
                        #[verifier::truncate]
                        (secs as u64),
                    ).as_slice(),
                );
                digest::update(
                    &mut h,
                    vstd::bytes::u64_to_le_bytes(
                        #[verifier::truncate]
                        (nanos as u64),
                    ).as_slice(),
                );
                digest::update(&mut h, vstd::bytes::u64_to_le_bytes(size).as_slice());
            },
            None => {},
        }
        proof {
            assert(fs[i as int] == f.deep_view());
            assert(fs.take(i + 1).drop_last() =~= fs.take(i as int));
            assert(digest::hasher_input(h)->Some_0 =~= stat_bytes(fs.take(i + 1)));
        }
    }
    assert(fs.take(fs.len() as int) =~= fs);
    digest::cut(digest::finish(&h).as_str(), 32)
}

/// Paths with the texts by which they sort.
pub open spec fn path_keyed(paths: Seq<Seq<char>>) -> Seq<(Seq<char>, Seq<char>)> {
    Seq::new(paths.len(), |i: int| (path::order_key(paths[i]), paths[i]))
}

/// Paths in order, each once.
pub open spec fn in_path_order(paths: Seq<Seq<char>>) -> Seq<Seq<char>> {
    let l = strmap::listing(strmap::collected(path_keyed(paths)));
    Seq::new(l.len(), |i: int| l[i].1)
}

/// Sorts paths by their components.
pub fn order_paths(paths: &Vec<String>) -> (r: Vec<String>)
    ensures
        r.deep_view() == in_path_order(paths.deep_view()),
{
    let ghost ps = paths.deep_view();
    let ghost ks = path_keyed(ps);
    let mut m: StrMap<String> = StrMap::new();
    assert(ks.take(0) =~= Seq::empty());
    for i in 0..paths.len()
        invariant
            ps == paths.deep_view(),
            ks == path_keyed(ps),
            m@ == strmap::collected(ks.take(i as int)),
    {
        proof {
            assert(ps[i as int] == paths@[i as int]@);
            assert(ks.take(i + 1).drop_last() =~= ks.take(i as int));
        }
        m.insert(path::sort_key(paths[i].as_str()), paths[i].clone());
    }
    assert(ks.take(ks.len() as int) =~= ks);
    let ghost l = strmap::listing(m@);
    let n: usize = m.len();
    let mut out: Vec<String> = Vec::new();
    for i in 0..n
        invariant
            l == strmap::listing(m@),
            n == l.len(),
            out@.len() == i,
            forall|k: int| 0 <= k < i ==> (#[trigger] out@[k])@ == l[k].1,
    {
        out.push(m.value(i).clone());
    }
    assert(out.deep_view() =~= in_path_order(ps));
    out
}

/// The hash of a source directory that is kept for the given times of its files: the second of two
/// words of which the first is the key of those times.
pub open spec fn kept_hash(line: Seq<char>, key: Seq<char>) -> Option<Seq<char>> {
    match text::split_at_first(line, ' ') {
        Some((k, h)) => if k == key {
            Some(text::trimmed(h))
        } else {
            None
        },
        None => None,
    }
}

/// What is kept for the times of the files of a source directory.
pub open spec fn hash_line(key: Seq<char>, hash: Seq<char>) -> Seq<char> {
    key + " "@ + hash
}

/// Writes what is kept for the times of the files of a source directory.
pub fn hash_line_text(key: &str, hash: &str) -> (r: String)
    ensures
        r@ == hash_line(key@, hash@),
{
    let mut s = key.to_owned();
    s.append(" ");
    s.append(hash);
    s
}

/// What to do to hash a source directory.
pub enum SourceStep {
    /// The files have not changed since this hash was kept.
    Known(String),
    /// The files have to be read; the hash is then kept under this key.
    Read { key: String },
}

/// A source file: its path below the directory of its unit, and its contents.
pub struct SourceText {
    pub rel: String,
    pub bytes: Vec<u8>,
}

impl DeepView for SourceText {
    type V = (Seq<char>, Seq<u8>);

    open spec fn deep_view(&self) -> (Seq<char>, Seq<u8>) {
        (self.rel@, self.bytes@)
    }
}

/// The bytes of source files: the path and the contents of each.
pub open spec fn source_bytes(l: Seq<(Seq<char>, Seq<u8>)>) -> Seq<u8>
    decreases l.len(),
{
    if l.len() == 0 {
        Seq::empty()
    } else {
        source_bytes(l.drop_last()) + encode_utf8(l.last().0) + l.last().1
    }
}

/// Gives the hash of source files that were read: 32 digits.
pub fn content_hash(files: &Vec<SourceText>) -> (r: String)
    ensures
        r@ == digest::short_hex(source_bytes(files.deep_view()), 32),
        r@.len() == 32,
        digest::hex_text(r@),
{
    let ghost fs = files.deep_view();
    let mut h = digest::new_hasher();
    assert(fs.take(0) =~= Seq::empty());
    for i in 0..files.len()
        invariant
            fs == files.deep_view(),
            digest::hasher_input(h) == Some(source_bytes(fs.take(i as int))),
    {
        digest::update(&mut h, files[i].rel.as_str().as_bytes());
        digest::update(&mut h, files[i].bytes.as_slice());
        proof {
            assert(fs[i as int] == files@[i as int].deep_view());
            assert(fs.take(i + 1).drop_last() =~= fs.take(i as int));
            assert(digest::hasher_input(h)->Some_0 =~= source_bytes(fs.take(i + 1)));
        }
    }
    assert(fs.take(fs.len() as int) =~= fs);
    digest::cut(digest::finish(&h).as_str(), 32)
}

/// Where the hash of a source directory is kept.
pub open spec fn mtime_place(cache_root: Seq<char>, dir: Seq<char>) -> Seq<char> {
    path::joined(path::joined(cache_root, "mtime"@), digest::short_hex(encode_utf8(dir), 32))
}

/// Whether a directory below a source directory holds source, given whether the language builds
/// into it. One whose name starts with a dot does not.
pub fn enters_dir(name: &str, built_into: bool) -> (r: bool)
    ensures
        r == (!"."@.is_prefix_of(name@) && !built_into),
{
    !text::starts_with(name, ".") && !built_into
}

impl EvalCache {
    /// Where the hash of a source directory is kept.
    pub fn mtime_path(cache_root: &str, abs_dir: &str) -> (r: String)
        ensures
            r@ == mtime_place(cache_root@, abs_dir@),
    {
        path::join(
            path::join(cache_root, "mtime").as_str(),
            digest::short_hash(abs_dir.as_bytes(), 32).as_str(),
        )
    }

    /// Decides how to hash a source directory, given its files in order and what is kept for it.
    pub fn source_hash(files: &Vec<SourceFile>, kept: Option<&str>) -> (r: SourceStep)
        ensures
            ({
                let key = digest::short_hex(stat_bytes(files.deep_view()), 32);
                let known = match kept {
                    Some(line) => kept_hash(line@, key),
                    None => None,
                };
                match r {
                    SourceStep::Known(h) => known == Some(h@),
                    SourceStep::Read { key: k } => known is None && k@ == key,
                }
            }),
    {
        let key = mtime_key(files);
        match kept {
            Some(line) => match text::split_once(line, ' ') {
                Some(kh) => {
                    if text::str_eq(kh.0.as_str(), key.as_str()) {
                        return SourceStep::Known(text::trim(kh.1.as_str()));
                    }
                },
                None => {},
            },
            None => {},
        }
        SourceStep::Read { key }
    }
}

proof fn no_char_before(s: Seq<char>, c: char, i: int, n: int)
    requires
        0 <= i <= n < s.len(),
        s[n] == c,
        forall|k: int| i <= k < n ==> #[trigger] s[k] != c,
    ensures
        text::char_from(s, c, i) == Some(n),
    decreases n - i,
{
    if i < n {
        assert(s[i] != c);
        no_char_before(s, c, i + 1, n);
    }
}

/// A hash that is kept for the times of some files is found again for the same times, and for no
/// others.
pub proof fn kept_hash_reads_back(key: Seq<char>, other: Seq<char>, hash: Seq<char>)
    requires
        !key.contains(' '),
        hash.len() > 0,
        !text::white_space(hash[0]),
        !text::white_space(hash.last()),
    ensures
        kept_hash(hash_line(key, hash), key) == Some(hash),
        other != key ==> kept_hash(hash_line(key, hash), other) is None,
{
    reveal_strlit(" ");
    let line = hash_line(key, hash);
    let n = key.len() as int;
    assert forall|k: int| 0 <= k < n implies #[trigger] line[k] != ' ' by {
        assert(line[k] == key[k]);
    }
    assert(line[n] == ' ');
    no_char_before(line, ' ', 0, n);
    assert(line.take(n) =~= key);
    assert(line.skip(n + 1) =~= hash);
    assert(text::lead(hash, true) == 0);
    assert(hash.skip(0) =~= hash);
    assert(text::trail(hash) == 0);
    assert(hash.take(hash.len() as int) =~= hash);
}

/// The order in which inputs are declared does not count.
pub proof fn declaration_order_does_not_count(
    a: Seq<Seq<char>>,
    b: Seq<Seq<char>>,
    files: Seq<EvalView>,
)
    requires
        a.to_multiset() == b.to_multiset(),
    ensures
        input_bytes(a, files) == input_bytes(b, files),
{
    sorting::sorting_forgets_order(a, b);
    a.to_multiset_ensures();
    b.to_multiset_ensures();
}

proof fn collected_has<V>(pairs: Seq<(Seq<char>, V)>, k: Seq<char>)
    ensures
        strmap::collected(pairs).contains_key(k) <==> exists|i: int|
            0 <= i < pairs.len() && (#[trigger] pairs[i]).0 == k,
        strmap::collected(pairs).contains_key(k) ==> exists|i: int|
            0 <= i < pairs.len() && #[trigger] pairs[i] == (k, strmap::collected(pairs)[k]),
    decreases pairs.len(),
{
    if pairs.len() > 0 {
        let rest = pairs.drop_last();
        collected_has(rest, k);
        assert(forall|i: int| 0 <= i < rest.len() ==> rest[i] == pairs[i]);
        assert(pairs[pairs.len() - 1] == pairs.last());
        if strmap::collected(rest).contains_key(k) {
            let i = choose|i: int|
                0 <= i < rest.len() && #[trigger] rest[i] == (k, strmap::collected(rest)[k]);
            assert(pairs[i].0 == k);
        }
        if exists|i: int| 0 <= i < pairs.len() && (#[trigger] pairs[i]).0 == k {
            let i = choose|i: int| 0 <= i < pairs.len() && (#[trigger] pairs[i]).0 == k;
            if i < rest.len() {
                assert(rest[i].0 == k);
            }
        }
    }
}

/// Files that match are the same in both lists, and a path stands for one file.
pub open spec fn same_matches(a: Seq<EvalView>, b: Seq<EvalView>) -> bool {
    &&& forall|f: EvalView| #[trigger] a.contains(f) <==> b.contains(f)
    &&& forall|i: int, j: int|
        0 <= i < a.len() && 0 <= j < a.len() && path::order_key((#[trigger] a[i]).path)
            == path::order_key((#[trigger] a[j]).path) ==> a[i] == a[j]
}

proof fn collected_within(a: Seq<EvalView>, b: Seq<EvalView>, k: Seq<char>)
    requires
        same_matches(a, b),
        strmap::collected(keyed(a)).contains_key(k),
    ensures
        strmap::collected(keyed(b)).contains_key(k),
        strmap::collected(keyed(b))[k] == strmap::collected(keyed(a))[k],
{
    let ka = keyed(a);
    let kb = keyed(b);
    collected_has(ka, k);
    collected_has(kb, k);
    let i = choose|i: int| 0 <= i < ka.len() && #[trigger] ka[i] == (k, strmap::collected(ka)[k]);
    let f = a[i];
    assert(a.contains(f));
    assert(b.contains(f));
    let j = choose|j: int| 0 <= j < b.len() && b[j] == f;
    assert(kb[j].0 == k);
    let m = choose|m: int| 0 <= m < kb.len() && #[trigger] kb[m] == (k, strmap::collected(kb)[k]);
    let g = b[m];
    assert(b.contains(g));
    assert(a.contains(g));
    let n = choose|n: int| 0 <= n < a.len() && a[n] == g;
    assert(path::order_key(a[n].path) == path::order_key(a[i].path));
}

/// The order in which files are found, and how many declarations one matches, do not count.
pub proof fn match_order_does_not_count(
    globs: Seq<Seq<char>>,
    a: Seq<EvalView>,
    b: Seq<EvalView>,
)
    requires
        same_matches(a, b),
    ensures
        input_bytes(globs, a) == input_bytes(globs, b),
{
    let ma = strmap::collected(keyed(a));
    let mb = strmap::collected(keyed(b));
    assert(same_matches(b, a)) by {
        assert forall|i: int, j: int|
            0 <= i < b.len() && 0 <= j < b.len() && path::order_key((#[trigger] b[i]).path)
                == path::order_key((#[trigger] b[j]).path) implies b[i] == b[j] by {
            assert(b.contains(b[i]) && b.contains(b[j]));
            assert(a.contains(b[i]) && a.contains(b[j]));
            let m = choose|m: int| 0 <= m < a.len() && a[m] == b[i];
            let n = choose|n: int| 0 <= n < a.len() && a[n] == b[j];
            assert(path::order_key(a[m].path) == path::order_key(a[n].path));
        }
    }
    assert forall|k: Seq<char>| ma.contains_key(k) <==> mb.contains_key(k) by {
        if ma.contains_key(k) {
            collected_within(a, b, k);
        }
        if mb.contains_key(k) {
            collected_within(b, a, k);
        }
    }
    assert forall|k: Seq<char>| ma.contains_key(k) implies ma[k] == mb[k] by {
        collected_within(a, b, k);
    }
    assert(ma =~= mb);
}

/// The bytes of the two marks.
proof fn mark_bytes()
    ensures
        encode_utf8("\0glob\0"@) == seq![0u8, 103, 108, 111, 98, 0],
        encode_utf8("\0file\0"@) == seq![0u8, 102, 105, 108, 101, 0],
{
    reveal_strlit("\0glob\0");
    reveal_strlit("\0file\0");
    reveal_with_fuel(encode_utf8, 8);
    assert(0x67u32 & 0x7F == 0x67u32 && 0x6Cu32 & 0x7F == 0x6Cu32 && 0x6Fu32 & 0x7F == 0x6Fu32
        && 0x62u32 & 0x7F == 0x62u32 && 0x66u32 & 0x7F == 0x66u32 && 0x69u32 & 0x7F == 0x69u32
        && 0x65u32 & 0x7F == 0x65u32 && 0u32 & 0x7F == 0u32) by (bit_vector);
    assert(encode_utf8("\0glob\0"@) =~= seq![0u8, 103, 108, 111, 98, 0]);
    assert(encode_utf8("\0file\0"@) =~= seq![0u8, 102, 105, 108, 101, 0]);
}

proof fn first_glob(gs: Seq<Seq<char>>)
    requires
        gs.len() > 0,
    ensures
        glob_bytes(gs) == encode_utf8("\0glob\0"@) + encode_utf8(gs[0]) + glob_bytes(gs.skip(1)),
    decreases gs.len(),
{
    let rest = gs.skip(1);
    let mark = encode_utf8("\0glob\0"@);
    if gs.len() == 1 {
        assert(gs.drop_last() =~= Seq::empty());
        assert(rest =~= Seq::empty());
        assert(glob_bytes(gs) =~= mark + encode_utf8(gs[0]) + glob_bytes(rest));
    } else {
        let d = gs.drop_last();
        first_glob(d);
        assert(d.skip(1) =~= rest.drop_last());
        assert(glob_bytes(gs) =~= mark + encode_utf8(gs[0]) + glob_bytes(rest));
    }
}

/// What stands behind declarations: nothing, or the mark of a file.
spec fn is_behind_globs(t: Seq<u8>) -> bool {
    t.len() == 0 || (t.len() > 1 && t[0] == 0 && t[1] == 102)
}

proof fn files_are_behind_globs(l: Seq<(Seq<char>, EvalView)>)
    ensures
        is_behind_globs(files_bytes(l)),
    decreases l.len(),
{
    if l.len() > 0 {
        mark_bytes();
        files_are_behind_globs(l.drop_last());
        assert(files_bytes(l.drop_last()).len() == 0 ==> files_bytes(l) =~= file_bytes(l.last().1));
    }
}

/// No declaration holds a zero byte.
pub open spec fn zero_free(gs: Seq<Seq<char>>) -> bool {
    forall|i: int| 0 <= i < gs.len() ==> !encode_utf8(#[trigger] gs[i]).contains(0)
}

proof fn globs_are_determined(a: Seq<Seq<char>>, ta: Seq<u8>, b: Seq<Seq<char>>, tb: Seq<u8>)
    requires
        glob_bytes(a) + ta == glob_bytes(b) + tb,
        zero_free(a),
        zero_free(b),
        is_behind_globs(ta),
        is_behind_globs(tb),
    ensures
        a == b,
    decreases a.len(),
{
    mark_bytes();
    let mark = encode_utf8("\0glob\0"@);
    let s = glob_bytes(a) + ta;
    let t = glob_bytes(b) + tb;
    if a.len() == 0 {
        assert(s =~= ta);
        if b.len() > 0 {
            first_glob(b);
            assert(t[1] == 103);
            assert(ta.len() > 1);
        }
        assert(a =~= b);
    } else if b.len() == 0 {
        assert(t =~= tb);
        first_glob(a);
        assert(s[1] == 103);
        assert(tb.len() > 1);
    } else {
        first_glob(a);
        first_glob(b);
        let x = encode_utf8(a[0]);
        let y = encode_utf8(b[0]);
        let ra = glob_bytes(a.skip(1)) + ta;
        let rb = glob_bytes(b.skip(1)) + tb;
        zero_behind(a.skip(1), ta);
        zero_behind(b.skip(1), tb);
        assert(s =~= mark + x + ra);
        assert(t =~= mark + y + rb);
        if x.len() < y.len() {
            assert(ra.len() > 0);
            assert(s[6int + x.len()] == ra[0]);
            assert(t[6int + x.len()] == y[x.len() as int]);
            assert(y.contains(0));
        }
        if y.len() < x.len() {
            assert(rb.len() > 0);
            assert(t[6int + y.len()] == rb[0]);
            assert(s[6int + y.len()] == x[y.len() as int]);
            assert(x.contains(0));
        }
        let n = x.len() as int;
        assert(x =~= s.subrange(6, 6 + n));
        assert(y =~= t.subrange(6, 6 + n));
        assert(ra =~= s.skip(6 + n));
        assert(rb =~= t.skip(6 + n));
        text::encoding_is_injective(a[0], b[0]);
        assert forall|i: int| 0 <= i < a.skip(1).len() implies !encode_utf8(
            #[trigger] a.skip(1)[i],
        ).contains(0) by {
            assert(a.skip(1)[i] == a[i + 1]);
        }
        assert forall|i: int| 0 <= i < b.skip(1).len() implies !encode_utf8(
            #[trigger] b.skip(1)[i],
        ).contains(0) by {
            assert(b.skip(1)[i] == b[i + 1]);
        }
        globs_are_determined(a.skip(1), ta, b.skip(1), tb);
        assert(a =~= seq![a[0]] + a.skip(1));
        assert(b =~= seq![b[0]] + b.skip(1));
    }
}

proof fn zero_behind(gs: Seq<Seq<char>>, t: Seq<u8>)
    requires
        is_behind_globs(t),
    ensures
        ({
            let r = glob_bytes(gs) + t;
            r.len() > 0 ==> r[0] == 0
        }),
{
    mark_bytes();
    if gs.len() > 0 {
        first_glob(gs);
    } else {
        assert(glob_bytes(gs) + t =~= t);
    }
}

proof fn sorted_is_zero_free(gs: Seq<Seq<char>>)
    requires
        zero_free(gs),
    ensures
        zero_free(sorting::sorted(gs)),
        sorting::sorted(gs).to_multiset() == gs.to_multiset(),
        sorting::sorted(gs).len() == gs.len(),
{
    let r = |a: Seq<char>, b: Seq<char>| sorting::str_le(a, b);
    sorting::str_le_is_total();
    gs.lemma_sort_by_ensures(r);
    let o = sorting::sorted(gs);
    o.to_multiset_ensures();
    gs.to_multiset_ensures();
    assert forall|i: int| 0 <= i < o.len() implies !encode_utf8(#[trigger] o[i]).contains(0) by {
        assert(o.contains(o[i]));
        assert(gs.contains(o[i]));
        let j = choose|j: int| 0 <= j < gs.len() && gs[j] == o[i];
        assert(!encode_utf8(gs[j]).contains(0));
    }
}

/// One declaration more or less counts, whatever files match: the same bytes come from the same
/// declarations alone. Declarations hold no zero byte.
pub proof fn declarations_count(
    a: Seq<Seq<char>>,
    files_a: Seq<EvalView>,
    b: Seq<Seq<char>>,
    files_b: Seq<EvalView>,
)
    requires
        input_bytes(a, files_a) == input_bytes(b, files_b),
        zero_free(a),
        zero_free(b),
    ensures
        a.to_multiset() == b.to_multiset(),
{
    sorted_is_zero_free(a);
    sorted_is_zero_free(b);
    let ta = if a.len() == 0 {
        Seq::empty()
    } else {
        files_bytes(strmap::listing(strmap::collected(keyed(files_a))))
    };
    let tb = if b.len() == 0 {
        Seq::empty()
    } else {
        files_bytes(strmap::listing(strmap::collected(keyed(files_b))))
    };
    files_are_behind_globs(strmap::listing(strmap::collected(keyed(files_a))));
    files_are_behind_globs(strmap::listing(strmap::collected(keyed(files_b))));
    assert(glob_bytes(sorting::sorted(a)) + ta =~= input_bytes(a, files_a));
    assert(glob_bytes(sorting::sorted(b)) + tb =~= input_bytes(b, files_b));
    globs_are_determined(sorting::sorted(a), ta, sorting::sorted(b), tb);
}

/// The file `f` with other contents.
pub open spec fn with_bytes(f: EvalView, bytes: Option<Seq<u8>>) -> EvalView {
    EvalView { bytes, ..f }
}

proof fn file_bytes_differ(f: EvalView, bytes: Option<Seq<u8>>)
    requires
        bytes != f.bytes,
    ensures
        file_bytes(f) != file_bytes(with_bytes(f, bytes)),
{
    if let (Some(x), Some(y)) = (f.bytes, bytes) {
        let p = encode_utf8("\0file\0"@) + encode_utf8(f.rel) + seq![0u8];
        assert((p + x).skip(p.len() as int) =~= x);
        assert((p + y).skip(p.len() as int) =~= y);
    }
}

proof fn one_file_differs(l: Seq<(Seq<char>, EvalView)>, j: int, bytes: Option<Seq<u8>>)
    requires
        0 <= j < l.len(),
        bytes != l[j].1.bytes,
    ensures
        files_bytes(l) != files_bytes(l.update(j, (l[j].0, with_bytes(l[j].1, bytes)))),
    decreases l.len(),
{
    let f = l[j].1;
    let g = with_bytes(f, bytes);
    let m = l.update(j, (l[j].0, g));
    let n = l.len() - 1;
    let p = files_bytes(l.drop_last());
    let q = files_bytes(m.drop_last());
    if j == n {
        file_bytes_differ(f, bytes);
        assert(m.drop_last() =~= l.drop_last());
        assert((p + file_bytes(f)).skip(p.len() as int) =~= file_bytes(f));
        assert((p + file_bytes(g)).skip(p.len() as int) =~= file_bytes(g));
    } else {
        one_file_differs(l.drop_last(), j, bytes);
        assert(m.drop_last() =~= l.drop_last().update(j, (l[j].0, g)));
        let x = file_bytes(l.last().1);
        assert(m.last() == l.last());
        if p + x == q + x {
            assert((p + x).len() == (q + x).len());
            assert((p + x).take(p.len() as int) =~= p);
            assert((q + x).take(p.len() as int) =~= q);
        }
    }
}

/// The files have distinct paths.
pub open spec fn distinct_paths(files: Seq<EvalView>) -> bool {
    forall|i: int, j: int|
        0 <= i < j < files.len() ==> path::order_key((#[trigger] files[i]).path)
            != path::order_key((#[trigger] files[j]).path)
}

proof fn collected_value(files: Seq<EvalView>, i: int)
    requires
        distinct_paths(files),
        0 <= i < files.len(),
    ensures
        strmap::collected(keyed(files)).contains_key(path::order_key(files[i].path)),
        strmap::collected(keyed(files))[path::order_key(files[i].path)] == files[i],
{
    let ks = keyed(files);
    let k = path::order_key(files[i].path);
    assert(ks[i].0 == k);
    collected_has(ks, k);
    let j = choose|j: int| 0 <= j < ks.len() && #[trigger] ks[j] == (k, strmap::collected(ks)[k]);
    assert(files[j] == ks[j].1);
    if i < j {
        assert(path::order_key(files[i].path) != path::order_key(files[j].path));
    }
    if j < i {
        assert(path::order_key(files[j].path) != path::order_key(files[i].path));
    }
}

/// An edit of a file that matches counts.
pub proof fn edits_count(
    globs: Seq<Seq<char>>,
    files: Seq<EvalView>,
    i: int,
    bytes: Option<Seq<u8>>,
)
    requires
        globs.len() > 0,
        distinct_paths(files),
        0 <= i < files.len(),
        bytes != files[i].bytes,
    ensures
        input_bytes(globs, files) != input_bytes(
            globs,
            files.update(i, with_bytes(files[i], bytes)),
        ),
{
    let g = with_bytes(files[i], bytes);
    let after = files.update(i, g);
    let k = path::order_key(files[i].path);
    let m = strmap::collected(keyed(files));
    let m2 = strmap::collected(keyed(after));
    collected_value(files, i);
    assert(distinct_paths(after));
    collected_value(after, i);
    assert(m2 =~= m.insert(k, g)) by {
        assert forall|x: Seq<char>| m2.contains_key(x) <==> m.insert(k, g).contains_key(x) by {
            collected_has(keyed(files), x);
            collected_has(keyed(after), x);
            if m.contains_key(x) {
                let j = choose|j: int| 0 <= j < keyed(files).len() && (#[trigger] keyed(files)[j]).0
                    == x;
                assert(keyed(after)[j].0 == x);
            }
            if m2.contains_key(x) {
                let j = choose|j: int| 0 <= j < keyed(after).len() && (#[trigger] keyed(after)[j]).0
                    == x;
                assert(keyed(files)[j].0 == x);
            }
        }
        assert forall|x: Seq<char>| m2.contains_key(x) implies m2[x] == m.insert(k, g)[x] by {
            if x != k {
                collected_has(keyed(after), x);
                let j = choose|j: int| 0 <= j < keyed(after).len() && (#[trigger] keyed(after)[j]).0
                    == x;
                assert(j != i);
                collected_value(files, j);
                collected_value(after, j);
            }
        }
    }
    strmap::collected_is_finite(keyed(files));
    sorting::finite_map_is_listed(m);
    let l = strmap::listing(m);
    let j = strmap::key_index(l, k);
    assert(strmap::as_map(l).contains_key(k));
    let l2 = l.update(j, (k, g));
    assert(strmap::ascending(l2)) by {
        assert forall|a: int, b: int| 0 <= a < b < l2.len() implies strmap::str_lt(
            #[trigger] l2[a].0,
            #[trigger] l2[b].0,
        ) by {
            assert(l2[a].0 == l[a].0 && l2[b].0 == l[b].0);
        }
    }
    assert(strmap::as_map(l2) =~= m2) by {
        assert forall|x: Seq<char>| strmap::has_key(l2, x) <==> m2.contains_key(x) by {
            if strmap::has_key(l2, x) {
                let a = strmap::key_index(l2, x);
                assert(l[a].0 == x);
                assert(strmap::as_map(l).contains_key(x));
            }
            if m2.contains_key(x) {
                assert(strmap::as_map(l).contains_key(x));
                let a = strmap::key_index(l, x);
                assert(l2[a].0 == x);
            }
        }
        assert forall|x: Seq<char>| strmap::has_key(l2, x) implies strmap::as_map(l2)[x] == m2[x] by {
            let a = strmap::key_index(l2, x);
            strmap::ascending_index(l, a);
            strmap::ascending_index(l, j);
        }
    }
    strmap::listing_of(l2);
    assert(l[j].1 == files[i]);
    one_file_differs(l, j, bytes);
    let p = glob_bytes(sorting::sorted(globs));
    assert((p + files_bytes(l)).skip(p.len() as int) =~= files_bytes(l));
    assert((p + files_bytes(l2)).skip(p.len() as int) =~= files_bytes(l2));
}

/// Where a key belongs in an ascending list that lacks it.
proof fn slot_for<V>(l: Seq<(Seq<char>, V)>, k: Seq<char>, n: int) -> (p: int)
    requires
        strmap::ascending(l),
        0 <= n <= l.len(),
        forall|i: int| 0 <= i < l.len() ==> (#[trigger] l[i]).0 != k,
        forall|i: int| n <= i < l.len() ==> strmap::str_lt(k, (#[trigger] l[i]).0),
    ensures
        0 <= p <= l.len(),
        forall|i: int| 0 <= i < p ==> strmap::str_lt((#[trigger] l[i]).0, k),
        forall|i: int| p <= i < l.len() ==> strmap::str_lt(k, (#[trigger] l[i]).0),
    decreases n,
{
    if n == 0 {
        0
    } else {
        sorting::str_lt_total(l[n - 1].0, k);
        if strmap::str_lt(k, l[n - 1].0) {
            slot_for(l, k, n - 1)
        } else {
            assert forall|i: int| 0 <= i < n implies strmap::str_lt((#[trigger] l[i]).0, k) by {
                if i < n - 1 {
                    assert(strmap::str_lt(l[i].0, l[n - 1].0));
                    strmap::str_lt_transitive(l[i].0, l[n - 1].0, k);
                }
            }
            n
        }
    }
}

proof fn one_more_file(l: Seq<(Seq<char>, EvalView)>, p: int, x: (Seq<char>, EvalView))
    requires
        0 <= p <= l.len(),
    ensures
        files_bytes(l.insert(p, x)).len() == files_bytes(l).len() + file_bytes(x.1).len(),
    decreases l.len(),
{
    let m = l.insert(p, x);
    if p == l.len() {
        assert(m.drop_last() =~= l);
    } else {
        one_more_file(l.drop_last(), p, x);
        assert(m.drop_last() =~= l.drop_last().insert(p, x));
        assert(m.last() == l.last());
    }
}

/// One more file that matches and can be read counts.
pub proof fn new_files_count(globs: Seq<Seq<char>>, files: Seq<EvalView>, f: EvalView)
    requires
        globs.len() > 0,
        f.bytes is Some,
        forall|i: int|
            0 <= i < files.len() ==> path::order_key((#[trigger] files[i]).path)
                != path::order_key(f.path),
    ensures
        input_bytes(globs, files.push(f)) != input_bytes(globs, files),
{
    let k = path::order_key(f.path);
    let m = strmap::collected(keyed(files));
    let after = keyed(files.push(f));
    assert(after.drop_last() =~= keyed(files));
    assert(after.last() == (k, f));
    let m2 = strmap::collected(after);
    assert(m2 == m.insert(k, f));
    collected_has(keyed(files), k);
    assert(!m.contains_key(k)) by {
        if m.contains_key(k) {
            let j = choose|j: int| 0 <= j < keyed(files).len() && (#[trigger] keyed(files)[j]).0
                == k;
            assert(path::order_key(files[j].path) == k);
        }
    }
    strmap::collected_is_finite(keyed(files));
    sorting::finite_map_is_listed(m);
    let l = strmap::listing(m);
    assert forall|i: int| 0 <= i < l.len() implies (#[trigger] l[i]).0 != k by {
        strmap::ascending_index(l, i);
    }
    let p = slot_for(l, k, l.len() as int);
    let l2 = l.insert(p, (k, f));
    assert(strmap::ascending(l2)) by {
        assert forall|a: int, b: int| 0 <= a < b < l2.len() implies strmap::str_lt(
            #[trigger] l2[a].0,
            #[trigger] l2[b].0,
        ) by {
            let x = if a < p { a } else { a - 1 };
            let y = if b < p { b } else { b - 1 };
            if a == p {
                assert(l2[b] == l[y]);
            } else if b == p {
                assert(l2[a] == l[x]);
            } else {
                assert(l2[a] == l[x] && l2[b] == l[y]);
            }
        }
    }
    assert(strmap::as_map(l2) =~= m2) by {
        assert(l2[p] == (k, f));
        assert forall|x: Seq<char>| strmap::has_key(l2, x) <==> m2.contains_key(x) by {
            if strmap::has_key(l2, x) && x != k {
                let a = strmap::key_index(l2, x);
                let b = if a < p { a } else { a - 1 };
                assert(l[b].0 == x);
                assert(strmap::as_map(l).contains_key(x));
            }
            if m2.contains_key(x) && x != k {
                assert(strmap::as_map(l).contains_key(x));
                let a = strmap::key_index(l, x);
                let b = if a < p { a } else { a + 1 };
                assert(l2[b].0 == x);
            }
        }
        assert forall|x: Seq<char>| strmap::has_key(l2, x) implies strmap::as_map(l2)[x] == m2[x] by {
            let a = strmap::key_index(l2, x);
            strmap::ascending_index(l2, p);
            if x != k {
                let b = if a < p { a } else { a - 1 };
                assert(l2[a] == l[b]);
                strmap::ascending_index(l, b);
            }
        }
    }
    strmap::listing_of(l2);
    one_more_file(l, p, (k, f));
    let g = glob_bytes(sorting::sorted(globs));
    assert(file_bytes(f).len() > 0);
    assert(input_bytes(globs, files) == g + files_bytes(l));
    assert(input_bytes(globs, files.push(f)) == g + files_bytes(l2));
    assert((g + files_bytes(l)).len() < (g + files_bytes(l2)).len());
}

proof fn middle_counts(a: Seq<u8>, p: Seq<u8>, q: Seq<u8>, b: Seq<u8>)
    requires
        p != q,
    ensures
        a + p + b != a + q + b,
{
    let s = a + p + b;
    let t = a + q + b;
    if s == t {
        assert(s.len() == t.len());
        let n = a.len() as int;
        let m = (a.len() + p.len()) as int;
        assert(p =~= s.subrange(n, m));
        assert(q =~= t.subrange(n, m));
    }
}

proof fn source_parts(l: Seq<(Seq<char>, Seq<u8>)>, i: int) -> (r: (Seq<u8>, Seq<u8>))
    requires
        0 <= i < l.len(),
    ensures
        forall|b: Seq<u8>|
            source_bytes(#[trigger] l.update(i, (l[i].0, b))) == r.0 + (encode_utf8(l[i].0) + b)
                + r.1,
    decreases l.len(),
{
    let f = l.drop_last();
    if i == l.len() - 1 {
        let r = (source_bytes(f), Seq::<u8>::empty());
        assert forall|b: Seq<u8>| source_bytes(#[trigger] l.update(i, (l[i].0, b))) == r.0 + (
        encode_utf8(l[i].0) + b) + r.1 by {
            let u = l.update(i, (l[i].0, b));
            assert(u.drop_last() =~= f);
            assert(source_bytes(u) =~= r.0 + (encode_utf8(l[i].0) + b) + r.1);
        }
        r
    } else {
        let p = source_parts(f, i);
        let z = l.last();
        let r = (p.0, p.1 + (encode_utf8(z.0) + z.1));
        assert forall|b: Seq<u8>| source_bytes(#[trigger] l.update(i, (l[i].0, b))) == r.0 + (
        encode_utf8(l[i].0) + b) + r.1 by {
            let u = l.update(i, (l[i].0, b));
            assert(f[i] == l[i]);
            assert(u.drop_last() =~= f.update(i, (f[i].0, b)));
            assert(u.last() == z);
            assert(source_bytes(u) =~= r.0 + (encode_utf8(l[i].0) + b) + r.1);
        }
        r
    }
}

/// An edit of any one file moves what the hash of a source directory is the digest of.
pub proof fn source_edits_count(l: Seq<(Seq<char>, Seq<u8>)>, i: int, bytes: Seq<u8>)
    requires
        0 <= i < l.len(),
        bytes != l[i].1,
    ensures
        source_bytes(l.update(i, (l[i].0, bytes))) != source_bytes(l),
{
    let r = source_parts(l, i);
    let e = encode_utf8(l[i].0);
    assert(l.update(i, (l[i].0, l[i].1)) =~= l);
    if e + bytes == e + l[i].1 {
        assert(bytes =~= (e + bytes).skip(e.len() as int));
        assert(l[i].1 =~= (e + l[i].1).skip(e.len() as int));
    }
    middle_counts(r.0, e + bytes, e + l[i].1, r.1);
}

/// One more file moves what the hash of a source directory is the digest of.
pub proof fn new_source_files_count(l: Seq<(Seq<char>, Seq<u8>)>, f: (Seq<char>, Seq<u8>))
    requires
        f.0.len() > 0,
    ensures
        source_bytes(l.push(f)) != source_bytes(l),
{
    assert(l.push(f).drop_last() =~= l);
    if encode_utf8(f.0).len() == 0 {
        assert(encode_utf8(Seq::<char>::empty()) =~= Seq::empty());
        assert(encode_utf8(f.0) =~= encode_utf8(Seq::<char>::empty()));
        text::encoding_is_injective(f.0, Seq::empty());
    }
    assert(source_bytes(l.push(f)).len() > source_bytes(l).len());
}

/// What is known of a file's times and size, as bytes.
pub open spec fn stat_part(s: Option<(i64, i64, u64)>) -> Seq<u8> {
    match s {
        Some((secs, nanos, size)) => le_bytes(secs as u64) + le_bytes(nanos as u64) + le_bytes(size),
        None => Seq::empty(),
    }
}

proof fn stat_parts(l: Seq<(Seq<char>, Option<(i64, i64, u64)>)>, i: int) -> (r: (
    Seq<u8>,
    Seq<u8>,
))
    requires
        0 <= i < l.len(),
    ensures
        forall|s: Option<(i64, i64, u64)>|
            stat_bytes(#[trigger] l.update(i, (l[i].0, s))) == r.0 + (encode_utf8(l[i].0)
                + stat_part(s)) + r.1,
    decreases l.len(),
{
    let f = l.drop_last();
    if i == l.len() - 1 {
        let r = (stat_bytes(f), Seq::<u8>::empty());
        assert forall|s: Option<(i64, i64, u64)>|
            stat_bytes(#[trigger] l.update(i, (l[i].0, s))) == r.0 + (encode_utf8(l[i].0)
                + stat_part(s)) + r.1 by {
            let u = l.update(i, (l[i].0, s));
            assert(u.drop_last() =~= f);
            assert(stat_bytes(u) =~= r.0 + (encode_utf8(l[i].0) + stat_part(s)) + r.1);
        }
        r
    } else {
        let p = stat_parts(f, i);
        let z = l.last();
        let r = (p.0, p.1 + (encode_utf8(z.0) + stat_part(z.1)));
        assert forall|s: Option<(i64, i64, u64)>|
            stat_bytes(#[trigger] l.update(i, (l[i].0, s))) == r.0 + (encode_utf8(l[i].0)
                + stat_part(s)) + r.1 by {
            let u = l.update(i, (l[i].0, s));
            assert(f[i] == l[i]);
            assert(u.drop_last() =~= f.update(i, (f[i].0, s)));
            assert(u.last() == z);
            assert(stat_bytes(u) =~= r.0 + (encode_utf8(l[i].0) + stat_part(s)) + r.1);
        }
        r
    }
}

/// A file that is written anew, at another time or with another size, moves what the key of the
/// times is the digest of.
pub proof fn touched_files_count(
    l: Seq<(Seq<char>, Option<(i64, i64, u64)>)>,
    i: int,
    s: Option<(i64, i64, u64)>,
)
    requires
        0 <= i < l.len(),
        s != l[i].1,
    ensures
        stat_bytes(l.update(i, (l[i].0, s))) != stat_bytes(l),
{
    let r = stat_parts(l, i);
    let e = encode_utf8(l[i].0);
    let t = l[i].1;
    assert(l.update(i, (l[i].0, t)) =~= l);
    vstd::bytes::lemma_auto_spec_u64_to_from_le_bytes();
    let p = stat_part(s);
    let q = stat_part(t);
    if e + p == e + q {
        assert(p =~= (e + p).skip(e.len() as int));
        assert(q =~= (e + q).skip(e.len() as int));
        match (s, t) {
            (Some((a1, b1, c1)), Some((a2, b2, c2))) => {
                assert(le_bytes(a1 as u64) =~= p.subrange(0, 8));
                assert(le_bytes(a2 as u64) =~= q.subrange(0, 8));
                assert(le_bytes(b1 as u64) =~= p.subrange(8, 16));
                assert(le_bytes(b2 as u64) =~= q.subrange(8, 16));
                assert(le_bytes(c1) =~= p.subrange(16, 24));
                assert(le_bytes(c2) =~= q.subrange(16, 24));
                assert(a1 as u64 == a2 as u64 ==> a1 == a2) by (bit_vector);
                assert(b1 as u64 == b2 as u64 ==> b1 == b2) by (bit_vector);
            },
            _ => {
                assert(p.len() != q.len());
            },
        }
    }
    middle_counts(r.0, e + p, e + q, r.1);
}

/// An edit of `bob.nix`, or another lock hash of the same length, moves what the key of an
/// evaluation is the digest of; an empty declaration is like none.
pub proof fn evaluation_inputs_count(
    a: Seq<char>,
    b: Seq<char>,
    x: Seq<u8>,
    y: Seq<u8>,
    declared: Option<(Seq<Seq<char>>, Seq<EvalView>)>,
    files: Seq<EvalView>,
)
    ensures
        x != y ==> key_bytes(a, x, declared) != key_bytes(a, y, declared),
        a != b && encode_utf8(a).len() == encode_utf8(b).len() ==> key_bytes(a, x, declared)
            != key_bytes(b, x, declared),
        key_bytes(a, x, Some((Seq::empty(), files))) == key_bytes(a, x, None),
{
    let m = encode_utf8("\0bob.nix\0"@);
    let z = match declared {
        Some((globs, fs)) => input_bytes(globs, fs),
        None => Seq::empty(),
    };
    if x != y {
        middle_counts(encode_utf8(a) + m, x, y, z);
        assert(key_bytes(a, x, declared) =~= encode_utf8(a) + m + x + z);
        assert(key_bytes(a, y, declared) =~= encode_utf8(a) + m + y + z);
    }
    if a != b && encode_utf8(a).len() == encode_utf8(b).len() {
        text::encoding_is_injective(a, b);
        let none = Seq::<u8>::empty();
        middle_counts(none, encode_utf8(a), encode_utf8(b), m + x + z);
        assert(key_bytes(a, x, declared) =~= none + encode_utf8(a) + (m + x + z));
        assert(key_bytes(b, x, declared) =~= none + encode_utf8(b) + (m + x + z));
    }
}

/// The results of evaluations with different keys are kept at different places, all in the given
/// directory.
pub proof fn evaluations_are_kept_apart(
    dir: Seq<char>,
    target: Seq<char>,
    a: Seq<char>,
    b: Seq<char>,
)
    requires
        dir.len() > 0,
        dir.last() != '/',
        ({
            let t = digest::blake3_hex(encode_utf8(target)).take(16);
            t.len() > 0 && t[0] != '/'
        }),
    ensures
        kept_at(dir, target, a) == dir + seq!['/'] + digest::blake3_hex(encode_utf8(target)).take(16)
            + seq!['.'] + a + ".drv"@,
        a != b ==> kept_at(dir, target, a) != kept_at(dir, target, b),
{
    reveal_strlit(".");
    assert("."@ =~= seq!['.']);
    let t = digest::blake3_hex(encode_utf8(target)).take(16);
    let p = dir + seq!['/'] + t + seq!['.'];
    path::joining_goes_below(dir, t + "."@ + a + ".drv"@);
    path::joining_goes_below(dir, t + "."@ + b + ".drv"@);
    assert((t + "."@ + a + ".drv"@)[0] == t[0]);
    assert((t + "."@ + b + ".drv"@)[0] == t[0]);
    assert(kept_at(dir, target, a) =~= p + a + ".drv"@);
    assert(kept_at(dir, target, b) =~= p + b + ".drv"@);
    if a != b && p + a + ".drv"@ == p + b + ".drv"@ {
        let n = p.len() as int;
        assert((p + a + ".drv"@).len() == (p + b + ".drv"@).len());
        assert(a =~= (p + a + ".drv"@).subrange(n, n + a.len()));
        assert(b =~= (p + b + ".drv"@).subrange(n, n + a.len()));
    }
}

/// Paths are brought into ascending order, and as long as their order tells them apart none is lost
/// and none comes in.
pub proof fn path_order_keeps_all(paths: Seq<Seq<char>>, p: Seq<char>)
    ensures
        forall|i: int, j: int|
            0 <= i < j < in_path_order(paths).len() ==> strmap::str_lt(
                path::order_key(#[trigger] in_path_order(paths)[i]),
                path::order_key(#[trigger] in_path_order(paths)[j]),
            ),
        in_path_order(paths).contains(p) ==> paths.contains(p),
        (forall|i: int, j: int|
            0 <= i < paths.len() && 0 <= j < paths.len() && path::order_key(#[trigger] paths[i])
                == path::order_key(#[trigger] paths[j]) ==> paths[i] == paths[j]) && paths.contains(
            p,
        ) ==> in_path_order(paths).contains(p),
{
    let m = strmap::collected(path_keyed(paths));
    let l = strmap::listing(m);
    let o = in_path_order(paths);
    strmap::collected_is_finite(path_keyed(paths));
    sorting::finite_map_is_listed(m);
    assert forall|i: int| 0 <= i < l.len() implies path::order_key((#[trigger] l[i]).1) == l[i].0
        && paths.contains(l[i].1) by {
        strmap::ascending_index(l, i);
        collected_paths(paths, l[i].0);
    }
    assert forall|i: int, j: int| 0 <= i < j < o.len() implies strmap::str_lt(
        path::order_key(#[trigger] o[i]),
        path::order_key(#[trigger] o[j]),
    ) by {
        assert(o[i] == l[i].1 && o[j] == l[j].1);
    }
    if o.contains(p) {
        let i = choose|i: int| 0 <= i < o.len() && o[i] == p;
        assert(l[i].1 == p);
    }
    if (forall|i: int, j: int|
        0 <= i < paths.len() && 0 <= j < paths.len() && path::order_key(#[trigger] paths[i])
            == path::order_key(#[trigger] paths[j]) ==> paths[i] == paths[j]) && paths.contains(p) {
        let k = path::order_key(p);
        collected_paths(paths, k);
        assert(m.contains_key(k));
        let i = strmap::key_index(l, k);
        assert(strmap::has_key(l, k));
        assert(l[i].0 == k);
        let a = choose|a: int| 0 <= a < paths.len() && paths[a] == p;
        let b = choose|b: int| 0 <= b < paths.len() && paths[b] == l[i].1;
        assert(paths[a] == paths[b]);
        assert(o[i] == p);
    }
}

proof fn collected_paths(paths: Seq<Seq<char>>, k: Seq<char>)
    ensures
        strmap::collected(path_keyed(paths)).contains_key(k) <==> exists|i: int|
            0 <= i < paths.len() && path::order_key(#[trigger] paths[i]) == k,
        strmap::collected(path_keyed(paths)).contains_key(k) ==> path::order_key(
            strmap::collected(path_keyed(paths))[k],
        ) == k && paths.contains(strmap::collected(path_keyed(paths))[k]),
    decreases paths.len(),
{
    let ps = path_keyed(paths);
    if paths.len() > 0 {
        let f = paths.drop_last();
        let z = paths.len() - 1;
        collected_paths(f, k);
        assert(ps.drop_last() =~= path_keyed(f));
        assert(ps.last() == (path::order_key(paths[z]), paths[z]));
        if exists|i: int| 0 <= i < f.len() && path::order_key(#[trigger] f[i]) == k {
            let i = choose|i: int| 0 <= i < f.len() && path::order_key(#[trigger] f[i]) == k;
            assert(paths[i] == f[i]);
        }
        if exists|i: int| 0 <= i < paths.len() && path::order_key(#[trigger] paths[i]) == k {
            let i = choose|i: int| 0 <= i < paths.len() && path::order_key(#[trigger] paths[i]) == k;
            if i < f.len() {
                assert(f[i] == paths[i]);
            }
        }
        if strmap::collected(path_keyed(f)).contains_key(k) {
            let v = strmap::collected(path_keyed(f))[k];
            let i = choose|i: int| 0 <= i < f.len() && f[i] == v;
            assert(paths[i] == v);
        }
        assert(paths.contains(paths[z]));
    }
}

/// A directory is walked exactly if its name does not start with a dot and no build makes it.
pub proof fn hidden_and_built_directories_are_skipped(name: &str, built_into: bool, r: bool)
    requires
        call_ensures(enters_dir, (name, built_into), r),
    ensures
        name@.len() > 0 && name@[0] == '.' ==> !r,
        built_into ==> !r,
        !built_into && !(name@.len() > 0 && name@[0] == '.') ==> r,
{
    reveal_strlit(".");
    let d = "."@;
    if d.is_prefix_of(name@) {
        assert(name@.subrange(0, 1)[0] == d[0]);
    }
    if name@.len() > 0 && name@[0] == '.' {
        assert(d =~= name@.subrange(0, 1));
    }
}

/// A target is evaluated as an attribute of what `bob.nix` of the repository gives for no arguments.
pub proof fn targets_are_attributes(root: Seq<char>, attr: Seq<char>)
    ensures
        target_expr(root, attr).len() == root.len() + attr.len() + 21,
        target_expr(root, attr).subrange(8, 8 + root.len() as int) == root,
        attr.is_suffix_of(target_expr(root, attr)),
        text::occurs(target_expr(root, attr), root + "/bob.nix {})."@ + attr),
{
    reveal_strlit("(import ");
    reveal_strlit("/bob.nix {}).");
    let s = target_expr(root, attr);
    assert(s.subrange(8, 8 + root.len() as int) =~= root);
    assert(s.subrange(s.len() - attr.len(), s.len() as int) =~= attr);
    let t = root + "/bob.nix {})."@ + attr;
    assert(s.subrange(8, 8 + t.len() as int) =~= t);
    assert(text::has_at(s, 8, t));
}

/// What is noted of a directory lies below `mtime`, under 32 digits of the digest of its path.
pub proof fn notes_lie_below_mtime(root: Seq<char>, dir: Seq<char>)
    requires
        root.len() > 0,
        root.last() != '/',
        digest::blake3_hex(encode_utf8(dir)).len() >= 32,
        digest::blake3_hex(encode_utf8(dir))[0] != '/',
    ensures
        mtime_place(root, dir) == root + seq!['/', 'm', 't', 'i', 'm', 'e', '/']
            + digest::blake3_hex(encode_utf8(dir)).take(32),
{
    reveal_strlit("mtime");
    let k = digest::blake3_hex(encode_utf8(dir)).take(32);
    path::joining_goes_below(root, "mtime"@);
    path::joining_goes_below(path::joined(root, "mtime"@), k);
    assert(path::joined(root, "mtime"@) =~= root + seq!['/', 'm', 't', 'i', 'm', 'e']);
    assert(mtime_place(root, dir) =~= root + seq!['/', 'm', 't', 'i', 'm', 'e', '/'] + k);
}

/// An evaluation that succeeded gives the path that it printed, without the white space around it,
/// where that is one of a derivation. Anything else is an error.
pub proof fn evaluations_give_derivations(
    attr: &str,
    success: bool,
    stdout: &str,
    stderr: &str,
    r: Result<ResolveResult, String>,
)
    requires
        call_ensures(EvalCache::evaluated, (attr, success, stdout, stderr), r),
    ensures
        !success ==> r is Err,
        success && ".drv"@.is_suffix_of(text::trimmed(stdout@)) ==> (r matches Ok(d) && d.drv_path@
            == text::trimmed(stdout@)),
        !(".drv"@.is_suffix_of(text::trimmed(stdout@))) ==> r is Err,
{
}

/// A hash is taken from what is kept exactly where that was kept for the same times and sizes;
/// otherwise the files are read, and the new hash is kept for these.
pub proof fn unchanged_sources_are_not_read(
    files: &Vec<SourceFile>,
    hash: Seq<char>,
    kept: &str,
    r: SourceStep,
    n: SourceStep,
)
    requires
        call_ensures(EvalCache::source_hash, (files, Some(kept)), r),
        call_ensures(EvalCache::source_hash, (files, None), n),
        hash.len() > 0,
        !text::white_space(hash[0]),
        !text::white_space(hash.last()),
        ({
            let key = digest::blake3_hex(stat_bytes(files.deep_view())).take(32);
            !key.contains(' ') && kept@ == hash_line(key, hash)
        }),
    ensures
        r matches SourceStep::Known(h) && h@ == hash,
        n matches SourceStep::Read { key } && key@ == digest::blake3_hex(
            stat_bytes(files.deep_view()),
        ).take(32),
{
    let key = digest::blake3_hex(stat_bytes(files.deep_view())).take(32);
    kept_hash_reads_back(key, key, hash);
}

/// What is kept for a target is used exactly where its derivation is still there; otherwise the
/// attribute is evaluated, and the result is kept for the target and the evaluation.
pub proof fn kept_derivations_are_used_while_there(
    c: &EvalCache,
    repo_root: &str,
    target: &str,
    attr: &str,
    eval_key: &str,
    kept: Option<(String, bool)>,
    r: ResolveStep,
)
    requires
        call_ensures(EvalCache::resolve_one, (c, repo_root, target, attr, eval_key, kept), r),
    ensures
        kept matches Some(k) && k.1 ==> (r matches ResolveStep::Kept(d) && d.drv_path@ == kept->Some_0.0@),
        kept is None || !kept->Some_0.1 ==> (r matches ResolveStep::Evaluate { expr, keep_at } && text::occurs(
            expr@,
            repo_root@ + "/bob.nix {})."@ + attr@,
        ) && keep_at@ == kept_at(c@, target@, eval_key@)),
{
    targets_are_attributes(repo_root@, attr@);
}

/// A matching file that cannot be read does not count; any other counts with its path and all that it
/// holds.
pub proof fn unreadable_inputs_do_not_count(
    l: Seq<(Seq<char>, EvalView)>,
    k: Seq<char>,
    f: EvalView,
)
    ensures
        f.bytes is None ==> files_bytes(l.push((k, f))) == files_bytes(l),
        f.bytes matches Some(b) ==> files_bytes(l).is_prefix_of(files_bytes(l.push((k, f)))) && (
        encode_utf8(f.rel) + seq![0u8] + b).is_suffix_of(files_bytes(l.push((k, f)))),
        files_bytes(Seq::empty()).len() == 0,
{
    let p = l.push((k, f));
    assert(p.drop_last() =~= l);
    let a = files_bytes(l);
    let s = files_bytes(p);
    match f.bytes {
        None => {
            assert(s =~= a);
        },
        Some(b) => {
            let t = encode_utf8(f.rel) + seq![0u8] + b;
            assert(s.subrange(0, a.len() as int) =~= a);
            assert(s.subrange(s.len() - t.len(), s.len() as int) =~= t);
        },
    }
}

} // verus!
