use bob::cache::ArtifactCache;
use bob::strmap::StrSet;
use bob::tree::TreeEntry;

fn file(name: &str, contents: &str) -> TreeEntry {
    TreeEntry::File {
        name: name.into(),
        contents: Some(contents.into()),
    }
}

fn link(name: &str, target: &str) -> TreeEntry {
    TreeEntry::Link {
        name: name.into(),
        target: Some(target.into()),
    }
}

fn dir(name: &str, entries: Vec<TreeEntry>) -> TreeEntry {
    TreeEntry::Dir {
        name: name.into(),
        entries,
    }
}

fn artifact(lib: Vec<TreeEntry>) -> Vec<TreeEntry> {
    vec![dir("out", vec![dir("lib", lib)]), file(".out-hash", "ignored")]
}

#[test]
fn hash_tree_content_addressed() {
    let h1 = ArtifactCache::hash_tree(&artifact(vec![file("libfoo.a", "v1")]));
    assert_eq!(
        h1,
        ArtifactCache::hash_tree(&artifact(vec![file("libfoo.a", "v1")]))
    );
    assert_ne!(
        h1,
        ArtifactCache::hash_tree(&artifact(vec![file("libfoo.a", "v2")]))
    );
    let h2 = ArtifactCache::hash_tree(&artifact(vec![
        file("libfoo.a", "v1"),
        link("libfoo.so", "libfoo.a"),
    ]));
    assert_ne!(h1, h2);
    assert_ne!(
        h2,
        ArtifactCache::hash_tree(&artifact(vec![
            file("libfoo.a", "v1"),
            link("libfoo.so", "other"),
        ]))
    );
}

#[test]
fn hash_tree_forgets_order_and_dots() {
    let a = vec![file("a", "1"), file("b", "2")];
    let b = vec![file("b", "2"), file(".hidden", "x"), file("a", "1")];
    assert_eq!(ArtifactCache::hash_tree(&a), ArtifactCache::hash_tree(&b));
    assert_eq!(ArtifactCache::hash_tree(&a).len(), 32);
}

#[test]
fn cache_key_stable() {
    let cache = ArtifactCache::from_path("/tmp/bob-test".into());
    let drv = "/nix/store/aaaa-test.drv";
    let k = ArtifactCache::cache_key(drv);
    assert_eq!(k.len(), 64);
    assert!(!cache.is_cached_key(&k, &StrSet::new()));
    assert_eq!(cache.artifact_dir(drv), cache.artifact_dir_by_key(&k));
    assert_ne!(
        ArtifactCache::cache_key_with_source(drv, "a"),
        ArtifactCache::cache_key_with_source(drv, "b"),
    );
}

#[test]
fn keys_are_digests() {
    // The digests of the empty input and of the input with a zero byte between its parts.
    assert_eq!(
        ArtifactCache::cache_key(""),
        "af1349b9f5f9a1a6a0404dea36dcc9499bcb25c9adc112b7cc9a93cae41f3262"
    );
    assert_eq!(
        ArtifactCache::cache_key_with_source("d", "h"),
        blake3::hash(b"d\0h").to_hex().to_string()
    );
    assert_eq!(
        ArtifactCache::cache_key("/nix/store/a.drv"),
        blake3::hash(b"/nix/store/a.drv").to_hex().to_string()
    );
}

#[test]
fn places_in_the_cache() {
    let xdg = ArtifactCache::new(Some("/x"), Some("/home/u"));
    assert_eq!(xdg.root(), "/x/bob");
    let home = ArtifactCache::new(None, Some("/home/u"));
    assert_eq!(home.root(), "/home/u/.cache/bob");
    let k = ArtifactCache::cache_key("d");
    assert_eq!(xdg.tmp_dir("d"), format!("/x/bob/tmp/{}", k));
    assert_eq!(xdg.incremental_dir("d"), format!("/x/bob/incremental/{}", k));
    assert_eq!(xdg.out_dir("d"), format!("/x/bob/artifacts/{}/out", k));
    assert_eq!(xdg.lib_dir("d"), format!("/x/bob/artifacts/{}/lib", k));
    assert_eq!(xdg.out_hash_path("e"), "/x/bob/artifacts/e/.out-hash");
    assert_eq!(xdg.early_hash_path("e"), "/x/bob/artifacts/e/.early-hash");
    let mut there = StrSet::new();
    there.insert(k);
    assert!(xdg.is_cached("d", &there));
    assert!(!xdg.is_cached("e", &there));
}

#[test]
fn hash_tree_forgets_order_below_too() {
    let a = artifact(vec![file("x", "1"), dir("d", vec![file("p", "2"), link("q", "p")])]);
    let b = artifact(vec![dir("d", vec![link("q", "p"), file("p", "2")]), file("x", "1")]);
    assert_eq!(ArtifactCache::hash_tree(&a), ArtifactCache::hash_tree(&b));
    let c = artifact(vec![dir("d", vec![link("q", "p"), file("p", "3")]), file("x", "1")]);
    assert_ne!(ArtifactCache::hash_tree(&b), ArtifactCache::hash_tree(&c));
}

#[test]
fn dots_do_not_count_at_any_depth() {
    let a = artifact(vec![file("x", "1"), dir("d", vec![file("p", "2")])]);
    let b = artifact(vec![
        file(".a", "1"),
        dir("d", vec![file(".b", "2"), file("p", "2"), dir(".c", vec![file("q", "3")])]),
        file("x", "1"),
    ]);
    let h = ArtifactCache::hash_tree(&a);
    assert_eq!(h, ArtifactCache::hash_tree(&b));
    assert!(h.chars().all(|c| c.is_ascii_digit() || ('a'..='f').contains(&c)));
    let c = artifact(vec![file("x", "1"), dir("d", vec![file("o", ""), file("p", "2")])]);
    assert_ne!(h, ArtifactCache::hash_tree(&c));
}
