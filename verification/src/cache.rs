//! Content-addressed artifact cache.
//!
//! The key of an artifact is the digest of its derivation's path: that path already stands for
//! all inputs by Nix's own hashing. A unit whose source is overridden mixes the digest of that
//! source into its key.
//!
//! Layout below the root:
//!   `artifacts/<key>/`   committed outputs, one directory per output
//!   `incremental/<key>/` state that the compiler keeps between builds
//!   `tmp/<key>/`         builds in progress
use crate::digest;
use crate::path;
use crate::strmap::StrSet;
use crate::tree;
use crate::tree::TreeEntry;
use vstd::prelude::*;
use vstd::utf8::*;

verus! {

/// The key of a derivation.
pub open spec fn drv_key(drv_path: Seq<char>) -> Seq<char> {
    digest::blake3_hex(encode_utf8(drv_path))
}

/// The bytes that the key of a derivation with overridden source is the digest of.
pub open spec fn source_key_input(drv_path: Seq<char>, source_hash: Seq<char>) -> Seq<u8> {
    encode_utf8(drv_path) + seq![0u8] + encode_utf8(source_hash)
}

/// The key of a derivation with overridden source.
pub open spec fn source_key(drv_path: Seq<char>, source_hash: Seq<char>) -> Seq<char> {
    digest::blake3_hex(source_key_input(drv_path, source_hash))
}

/// Two source hashes without a zero byte give the digest different inputs, and so do two
/// derivation paths without one.
pub proof fn source_key_input_is_injective(
    d1: Seq<char>,
    h1: Seq<char>,
    d2: Seq<char>,
    h2: Seq<char>,
)
    requires
        source_key_input(d1, h1) == source_key_input(d2, h2),
        !encode_utf8(d1).contains(0),
        !encode_utf8(d2).contains(0),
    ensures
        d1 == d2,
        h1 == h2,
{
    let a = encode_utf8(d1);
    let b = encode_utf8(d2);
    let s = source_key_input(d1, h1);
    let t = source_key_input(d2, h2);
    assert(s[a.len() as int] == 0);
    assert(t[b.len() as int] == 0);
    if a.len() < b.len() {
        assert(b[a.len() as int] == t[a.len() as int]);
        assert(b.contains(0));
    }
    if b.len() < a.len() {
        assert(a[b.len() as int] == s[b.len() as int]);
        assert(a.contains(0));
    }
    assert(a =~= s.take(a.len() as int));
    assert(b =~= t.take(b.len() as int));
    assert(encode_utf8(h1) =~= s.skip(a.len() as int + 1));
    assert(encode_utf8(h2) =~= t.skip(b.len() as int + 1));
    crate::text::encoding_is_injective(d1, d2);
    crate::text::encoding_is_injective(h1, h2);
}

/// The cache root for the given values of `XDG_CACHE_HOME` and `HOME`.
pub open spec fn cache_root(xdg: Option<Seq<char>>, home: Seq<char>) -> Seq<char> {
    let dir = match xdg {
        Some(d) => d,
        None => home + "/.cache"@,
    };
    path::joined(dir, "bob"@)
}

/// Gives the cache root for the given values of `XDG_CACHE_HOME` and `HOME`.
pub fn root_of(xdg_cache_home: Option<&str>, home: &str) -> (r: String)
    ensures
        r@ == cache_root(
            match xdg_cache_home {
                Some(d) => Some(d@),
                None => None,
            },
            home@,
        ),
{
    match xdg_cache_home {
        Some(d) => path::join(d, "bob"),
        None => {
            let mut s = home.to_owned();
            s.append("/.cache");
            path::join(s.as_str(), "bob")
        },
    }
}

/// The cache on disk, known by its root.
pub struct ArtifactCache {
    root: String,
}

impl View for ArtifactCache {
    type V = Seq<char>;

    closed spec fn view(&self) -> Seq<char> {
        self.root@
    }
}

/// Where the artifact of a key lives.
pub open spec fn artifact_path(root: Seq<char>, key: Seq<char>) -> Seq<char> {
    path::joined(path::joined(root, "artifacts"@), key)
}

/// Where a derivation is built.
pub open spec fn tmp_place(root: Seq<char>, drv_path: Seq<char>) -> Seq<char> {
    path::joined(path::joined(root, "tmp"@), drv_key(drv_path))
}

/// Where the compiler keeps what it keeps of a derivation between builds.
pub open spec fn incremental_place(root: Seq<char>, drv_path: Seq<char>) -> Seq<char> {
    path::joined(path::joined(root, "incremental"@), drv_key(drv_path))
}

impl ArtifactCache {
    /// The cache of a user with the given environment: below `XDG_CACHE_HOME`, or `.cache` in
    /// `HOME`, which must then be set.
    pub fn new(xdg_cache_home: Option<&str>, home: Option<&str>) -> (r: Self)
        requires
            xdg_cache_home is Some || home is Some,
        ensures
            r@ == cache_root(
                match xdg_cache_home {
                    Some(d) => Some(d@),
                    None => None,
                },
                match home {
                    Some(h) => h@,
                    None => Seq::empty(),
                },
            ),
    {
        let home = match home {
            Some(h) => h.to_owned(),
            None => String::new(),
        };
        ArtifactCache { root: root_of(xdg_cache_home, home.as_str()) }
    }

    /// The cache at a given root.
    pub fn from_path(root: String) -> (r: Self)
        ensures
            r@ == root@,
    {
        ArtifactCache { root }
    }

    /// The root.
    pub fn root(&self) -> (r: &str)
        ensures
            r@ == self@,
    {
        self.root.as_str()
    }

    /// The key of a derivation: the digest of its path.
    pub fn cache_key(drv_path: &str) -> (r: String)
        ensures
            r@ == drv_key(drv_path@),
            r@.len() == 64,
            digest::hex_text(r@),
    {
        digest::hash(drv_path.as_bytes())
    }

    /// The key of a derivation that is built from other source than it names.
    pub fn cache_key_with_source(drv_path: &str, source_hash: &str) -> (r: String)
        ensures
            r@ == source_key(drv_path@, source_hash@),
            r@.len() == 64,
            digest::hex_text(r@),
    {
        let mut h = digest::new_hasher();
        digest::update(&mut h, drv_path.as_bytes());
        digest::update(&mut h, &[0u8]);
        digest::update(&mut h, source_hash.as_bytes());
        assert(digest::hasher_input(h)->Some_0 =~= source_key_input(drv_path@, source_hash@));
        digest::finish(&h)
    }

    /// Where the artifact of a derivation lives.
    pub fn artifact_dir(&self, drv_path: &str) -> (r: String)
        ensures
            r@ == artifact_path(self@, drv_key(drv_path@)),
    {
        self.artifact_dir_by_key(Self::cache_key(drv_path).as_str())
    }

    /// Where the artifact of a key lives.
    pub fn artifact_dir_by_key(&self, key: &str) -> (r: String)
        ensures
            r@ == artifact_path(self@, key@),
    {
        path::join(path::join(self.root.as_str(), "artifacts").as_str(), key)
    }

    /// Whether a derivation is cached, given the names in the artifacts directory.
    pub fn is_cached(&self, drv_path: &str, artifacts: &StrSet) -> (r: bool)
        ensures
            r == artifacts@.contains(drv_key(drv_path@)),
    {
        self.is_cached_key(Self::cache_key(drv_path).as_str(), artifacts)
    }

    /// Whether a key is cached, given the names in the artifacts directory.
    pub fn is_cached_key(&self, key: &str, artifacts: &StrSet) -> (r: bool)
        ensures
            r == artifacts@.contains(key@),
    {
        artifacts.contains(key)
    }

    /// The output `out` of a cached derivation.
    pub fn out_dir(&self, drv_path: &str) -> (r: String)
        ensures
            r@ == path::joined(artifact_path(self@, drv_key(drv_path@)), "out"@),
    {
        path::join(self.artifact_dir(drv_path).as_str(), "out")
    }

    /// The output `lib` of a cached derivation.
    pub fn lib_dir(&self, drv_path: &str) -> (r: String)
        ensures
            r@ == path::joined(artifact_path(self@, drv_key(drv_path@)), "lib"@),
    {
        path::join(self.artifact_dir(drv_path).as_str(), "lib")
    }

    /// Where a derivation is built. The place does not move when source changes, since compilers
    /// and linkers write it into what they make.
    pub fn tmp_dir(&self, drv_path: &str) -> (r: String)
        ensures
            r@ == tmp_place(self@, drv_path@),
    {
        path::join(
            path::join(self.root.as_str(), "tmp").as_str(),
            Self::cache_key(drv_path).as_str(),
        )
    }

    /// The file beside an artifact with the digest of all it holds.
    pub fn out_hash_path(&self, eff_key: &str) -> (r: String)
        ensures
            r@ == path::joined(artifact_path(self@, eff_key@), ".out-hash"@),
    {
        path::join(self.artifact_dir_by_key(eff_key).as_str(), ".out-hash")
    }

    /// The file beside an artifact with the digest of its interface. An artifact may lack it; a
    /// dependent then goes by the digest of all it holds.
    pub fn early_hash_path(&self, eff_key: &str) -> (r: String)
        ensures
            r@ == path::joined(artifact_path(self@, eff_key@), ".early-hash"@),
    {
        path::join(self.artifact_dir_by_key(eff_key).as_str(), ".early-hash")
    }

    /// The digest of a directory tree: 32 digits, over every entry in order of its path, with the
    /// contents of files and the targets of symbolic links. Entries whose name starts with a dot
    /// do not count.
    pub fn hash_tree(entries: &Vec<TreeEntry>) -> (r: String)
        ensures
            r@ == digest::short_hex(tree::dir_bytes(entries@, Seq::empty()), 32),
            r@.len() == 32,
            digest::hex_text(r@),
    {
        let root: Vec<u8> = Vec::new();
        let bytes = tree::collect_dir(entries, &root);
        assert(root@ =~= Seq::empty());
        digest::short_hash(bytes.as_slice(), 32)
    }

    /// What the compiler keeps of a derivation between builds. The place does not move when
    /// source changes.
    pub fn incremental_dir(&self, drv_path: &str) -> (r: String)
        ensures
            r@ == incremental_place(self@, drv_path@),
    {
        path::join(
            path::join(self.root.as_str(), "incremental").as_str(),
            Self::cache_key(drv_path).as_str(),
        )
    }
}

/// The cache lies in `bob` below `XDG_CACHE_HOME` where that is set, else below `.cache` in the home
/// directory.
pub proof fn the_cache_is_below_the_users(x: Seq<char>, home: Seq<char>)
    requires
        x.len() > 0,
        x.last() != '/',
    ensures
        cache_root(Some(x), home) == x + "/bob"@,
        cache_root(None, home) == home + "/.cache/bob"@,
{
    reveal_strlit("bob");
    reveal_strlit("/bob");
    reveal_strlit("/.cache");
    reveal_strlit("/.cache/bob");
    path::joining_goes_below(x, "bob"@);
    path::joining_goes_below(home + "/.cache"@, "bob"@);
    assert((home + "/.cache"@).last() == 'e');
    assert(x + seq!['/'] + "bob"@ =~= x + "/bob"@);
    assert(home + "/.cache"@ + seq!['/'] + "bob"@ =~= home + "/.cache/bob"@);
}

/// What is committed, what is built and what the compiler keeps lie apart, each below a directory of
/// its own: by the key of the build, and by the derivation.
pub proof fn places_lie_apart(root: Seq<char>, key: Seq<char>, drv_path: Seq<char>)
    requires
        root.len() > 0,
        root.last() != '/',
        key.len() > 0,
        key[0] != '/',
        ({
            let k = digest::blake3_hex(encode_utf8(drv_path));
            k.len() > 0 && k[0] != '/'
        }),
    ensures
        artifact_path(root, key) == root + "/artifacts/"@ + key,
        tmp_place(root, drv_path) == root + "/tmp/"@ + digest::blake3_hex(encode_utf8(drv_path)),
        incremental_place(root, drv_path) == root + "/incremental/"@ + digest::blake3_hex(
            encode_utf8(drv_path),
        ),
{
    reveal_strlit("artifacts");
    reveal_strlit("tmp");
    reveal_strlit("incremental");
    reveal_strlit("/artifacts/");
    reveal_strlit("/tmp/");
    reveal_strlit("/incremental/");
    let k = digest::blake3_hex(encode_utf8(drv_path));
    path::joining_goes_below(root, "artifacts"@);
    path::joining_goes_below(root, "tmp"@);
    path::joining_goes_below(root, "incremental"@);
    path::joining_goes_below(root + seq!['/'] + "artifacts"@, key);
    path::joining_goes_below(root + seq!['/'] + "tmp"@, k);
    path::joining_goes_below(root + seq!['/'] + "incremental"@, k);
    assert(root + seq!['/'] + "artifacts"@ + seq!['/'] + key =~= root + "/artifacts/"@ + key);
    assert(root + seq!['/'] + "tmp"@ + seq!['/'] + k =~= root + "/tmp/"@ + k);
    assert(root + seq!['/'] + "incremental"@ + seq!['/'] + k =~= root + "/incremental/"@ + k);
}

/// The hashes that dependents go by lie beside what was committed under the same key, under two
/// names.
pub proof fn hashes_lie_beside_the_artifact(c: &ArtifactCache, key: &str, o: String, e: String)
    requires
        call_ensures(ArtifactCache::out_hash_path, (c, key), o),
        call_ensures(ArtifactCache::early_hash_path, (c, key), e),
    ensures
        o@ == path::joined(artifact_path(c@, key@), ".out-hash"@),
        e@ == path::joined(artifact_path(c@, key@), ".early-hash"@),
        o@ != e@,
{
    reveal_strlit(".out-hash");
    reveal_strlit(".early-hash");
    let p = artifact_path(c@, key@);
    path::joining_goes_below(p, ".out-hash"@);
    path::joining_goes_below(p, ".early-hash"@);
    assert(".out-hash"@.len() != ".early-hash"@.len());
    assert(o@.len() != e@.len());
}

/// The outputs of an artifact lie in it, each under its name.
pub proof fn outputs_lie_in_the_artifact(c: &ArtifactCache, drv_path: &str, o: String, l: String)
    requires
        call_ensures(ArtifactCache::out_dir, (c, drv_path), o),
        call_ensures(ArtifactCache::lib_dir, (c, drv_path), l),
        ({
            let a = artifact_path(c@, drv_key(drv_path@));
            a.len() > 0 && a.last() != '/'
        }),
    ensures
        o@ == artifact_path(c@, drv_key(drv_path@)) + seq!['/', 'o', 'u', 't'],
        l@ == artifact_path(c@, drv_key(drv_path@)) + seq!['/', 'l', 'i', 'b'],
{
    reveal_strlit("out");
    reveal_strlit("lib");
    let a = artifact_path(c@, drv_key(drv_path@));
    path::joining_goes_below(a, "out"@);
    path::joining_goes_below(a, "lib"@);
    assert(o@ =~= a + seq!['/', 'o', 'u', 't']);
    assert(l@ =~= a + seq!['/', 'l', 'i', 'b']);
}

} // verus!
