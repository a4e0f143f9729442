use bob::resolve::{
    content_hash, enters_dir, eval_key, hash_eval_inputs, hash_line_text, mtime_key, order_paths,
    Declared, EvalCache, EvalFile, ResolveStep, SourceFile, SourceStep, SourceText,
};

fn globs(items: &[&str]) -> Vec<String> {
    items.iter().map(|s| s.to_string()).collect()
}

fn file(rel: &str, bytes: &str) -> EvalFile {
    EvalFile {
        path: format!("/repo/{}", rel),
        rel: rel.into(),
        bytes: Some(bytes.into()),
    }
}

fn key(gs: &[&str], files: Vec<EvalFile>) -> String {
    let mut h = blake3::Hasher::new();
    hash_eval_inputs(&mut h, &globs(gs), files);
    h.finalize().to_hex().to_string()
}

#[test]
fn eval_inputs_hash_invalidation() {
    let g = ["flake.lock", "sub/*.nix"];
    let base = key(&g, vec![file("flake.lock", "v1"), file("sub/a.nix", "a")]);
    assert_eq!(
        base,
        key(&g, vec![file("flake.lock", "v1"), file("sub/a.nix", "a")]),
        "deterministic"
    );

    let edited = key(&g, vec![file("flake.lock", "v2"), file("sub/a.nix", "a")]);
    assert_ne!(base, edited);

    let added = key(
        &g,
        vec![
            file("flake.lock", "v2"),
            file("sub/a.nix", "a"),
            file("sub/b.nix", "b"),
        ],
    );
    assert_ne!(edited, added);

    let rec = |c: &str| {
        key(
            &["flake.lock", "sub/**/*.nix"],
            vec![
                file("flake.lock", "v2"),
                file("sub/a.nix", "a"),
                file("sub/b.nix", "b"),
                file("sub/deep/c.nix", c),
            ],
        )
    };
    assert_ne!(rec("c"), rec("c2"));

    assert_ne!(
        added,
        key(
            &["flake.lock", "sub/*.nix", "missing"],
            vec![
                file("flake.lock", "v2"),
                file("sub/a.nix", "a"),
                file("sub/b.nix", "b"),
            ],
        )
    );

    assert_eq!(
        key(
            &["sub/a.nix", "sub/b.nix"],
            vec![file("sub/a.nix", "a"), file("sub/b.nix", "b")]
        ),
        key(
            &["sub/b.nix", "sub/a.nix"],
            vec![file("sub/b.nix", "b"), file("sub/a.nix", "a")]
        ),
    );
}

#[test]
fn eval_inputs_bytes_are_exact() {
    let k = key(
        &["b", "a"],
        vec![
            file("a/x", "1"),
            file("a.b", "2"),
            file("a/x", "1"),
            EvalFile {
                path: "/repo/gone".into(),
                rel: "gone".into(),
                bytes: None,
            },
        ],
    );
    // Paths sort by their components, and each counts once.
    assert_eq!(
        k,
        blake3::hash(b"\0glob\0a\0glob\0b\0file\0a/x\x001\0file\0a.b\x002")
            .to_hex()
            .to_string()
    );
    assert_eq!(key(&[], vec![file("a", "1")]), blake3::hash(b"").to_hex().to_string());
}

#[test]
fn evaluation_keys() {
    let plain = eval_key("lock", b"nix", None);
    assert_eq!(
        plain,
        blake3::hash(b"lock\0bob.nix\0nix").to_hex()[..16].to_string()
    );
    let declared = eval_key(
        "lock",
        b"nix",
        Some(Declared {
            globs: globs(&["f"]),
            files: vec![file("f", "x")],
        }),
    );
    assert_eq!(
        declared,
        blake3::hash(b"lock\0bob.nix\0nix\0glob\0f\0file\0f\0x").to_hex()[..16].to_string()
    );
    assert_ne!(plain, eval_key("lock2", b"nix", None));
    assert_ne!(plain, eval_key("lock", b"nix2", None));
}

#[test]
fn targets_resolve_from_what_is_kept() {
    let cache = EvalCache::new("/c/bob");
    let at = cache.cache_path("hello", "k");
    let hash = blake3::hash(b"hello").to_hex()[..16].to_string();
    assert_eq!(at, format!("/c/bob/eval/{}.k.drv", hash));
    match cache.resolve_one("/r", "hello", "a.b", "k", Some(("/nix/store/x.drv".into(), true))) {
        ResolveStep::Kept(r) => assert_eq!(r.drv_path, "/nix/store/x.drv"),
        ResolveStep::Evaluate { .. } => panic!("kept"),
    }
    for kept in [None, Some(("/nix/store/x.drv".to_string(), false))] {
        match cache.resolve_one("/r", "hello", "a.b", "k", kept) {
            ResolveStep::Kept(_) => panic!("not kept"),
            ResolveStep::Evaluate { expr, keep_at } => {
                assert_eq!(expr, "(import /r/bob.nix {}).a.b");
                assert_eq!(keep_at, at);
            }
        }
    }
}

#[test]
fn evaluation_output() {
    assert_eq!(
        EvalCache::evaluated("a", true, "  /nix/store/x.drv\n", "")
            .ok()
            .unwrap()
            .drv_path,
        "/nix/store/x.drv"
    );
    assert_eq!(
        EvalCache::evaluated("a", false, "", "boom").err().unwrap(),
        "nix-instantiate failed for 'a': boom"
    );
    assert_eq!(
        EvalCache::evaluated("a", true, "what\n", "").err().unwrap(),
        "unexpected nix-instantiate output: what"
    );
}

fn stat(rel: &str, secs: i64) -> SourceFile {
    SourceFile {
        rel: rel.into(),
        stat: Some((secs, -1, 3)),
    }
}

#[test]
fn source_hashes_are_kept_by_times() {
    let files = vec![stat("a", 1), SourceFile { rel: "b".into(), stat: None }];
    let k = mtime_key(&files);
    let mut bytes: Vec<u8> = b"a".to_vec();
    bytes.extend_from_slice(&1i64.to_le_bytes());
    bytes.extend_from_slice(&(-1i64).to_le_bytes());
    bytes.extend_from_slice(&3u64.to_le_bytes());
    bytes.extend_from_slice(b"b");
    assert_eq!(k, blake3::hash(&bytes).to_hex()[..32].to_string());

    let h = content_hash(&vec![
        SourceText { rel: "a".into(), bytes: b"1".to_vec() },
        SourceText { rel: "b".into(), bytes: b"2".to_vec() },
    ]);
    assert_eq!(h, blake3::hash(b"a1b2").to_hex()[..32].to_string());

    let line = hash_line_text(&k, &h);
    match EvalCache::source_hash(&files, Some(&line)) {
        SourceStep::Known(found) => assert_eq!(found, h),
        SourceStep::Read { .. } => panic!("kept"),
    }
    let touched = vec![stat("a", 2)];
    match EvalCache::source_hash(&touched, Some(&line)) {
        SourceStep::Known(_) => panic!("stale"),
        SourceStep::Read { key } => assert_eq!(key, mtime_key(&touched)),
    }
    assert!(matches!(
        EvalCache::source_hash(&files, None),
        SourceStep::Read { .. }
    ));
    assert!(matches!(
        EvalCache::source_hash(&files, Some("garbage")),
        SourceStep::Read { .. }
    ));
    assert_eq!(
        EvalCache::mtime_path("/c/bob", "/r/a"),
        format!("/c/bob/mtime/{}", &blake3::hash(b"/r/a").to_hex()[..32])
    );
}

#[test]
fn source_files_in_order() {
    assert_eq!(
        order_paths(&globs(&["src.rs", "src/b", "src/a", "a", "src/a/c"])),
        globs(&["a", "src/a", "src/a/c", "src/b", "src.rs"])
    );
    assert!(enters_dir("src", false));
    assert!(!enters_dir(".git", false));
    assert!(!enters_dir("target", true));
}

#[test]
fn one_more_match_counts() {
    let g = ["sub/*.nix"];
    let one = key(&g, vec![file("sub/a.nix", "a")]);
    assert_ne!(one, key(&g, vec![file("sub/a.nix", "a"), file("sub/b.nix", "")]));
    assert_ne!(one, key(&g, vec![]));
    assert_eq!(key(&[], vec![]), key(&[], vec![file("sub/a.nix", "a")]));
}
