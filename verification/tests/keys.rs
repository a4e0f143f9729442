use bob::graph::{BuildGraph, DrvFile};
use bob::overrides::{cascade, eff_hash, tracked_set, OwnHash};
use bob::strmap::{StrMap, StrSet};

fn own(h: &str) -> OwnHash {
    OwnHash {
        hash: h.into(),
        src_dir: String::new(),
    }
}

fn deps(items: &[&str]) -> Vec<String> {
    items.iter().map(|s| s.to_string()).collect()
}

fn map(items: &[(&str, &str)]) -> StrMap<String> {
    let mut m: StrMap<String> = StrMap::new();
    for (k, v) in items {
        m.insert(k.to_string(), v.to_string());
    }
    m
}

#[test]
fn eff_hash_cutoff_semantics() {
    let ds = deps(&["/nix/store/a.drv", "/nix/store/b.drv", "/nix/store/reg.drv"]);
    let prop1 = map(&[("/nix/store/a.drv", "out-a-v1"), ("/nix/store/b.drv", "out-b")]);
    let prop2 = map(&[("/nix/store/a.drv", "out-a-v1"), ("/nix/store/b.drv", "out-b")]);
    let prop3 = map(&[("/nix/store/a.drv", "out-a-v2"), ("/nix/store/b.drv", "out-b")]);

    let k1 = eff_hash(Some(&own("me")), &ds, &prop1);
    let k2 = eff_hash(Some(&own("me")), &ds, &prop2);
    assert_eq!(k1, k2, "unchanged dep output must not move dependent's key");

    let k3 = eff_hash(Some(&own("me")), &ds, &prop3);
    assert_ne!(k1, k3);

    let k4 = eff_hash(
        Some(&own("me")),
        &deps(&["/nix/store/a.drv", "/nix/store/b.drv"]),
        &prop1,
    );
    assert_eq!(k1, k4, "untracked deps must be transparent to eff_hash");

    let k5 = eff_hash(Some(&own("me2")), &ds, &prop1);
    assert_ne!(k1, k5);

    let k6 = eff_hash(
        Some(&own("me")),
        &deps(&["/nix/store/b.drv", "/nix/store/a.drv"]),
        &prop1,
    );
    assert_eq!(k1, k6);
}

#[test]
fn eff_hash_is_a_digest() {
    let k = eff_hash(Some(&own("me")), &deps(&["x", "y"]), &map(&[("x", "2"), ("y", "1")]));
    assert_eq!(k, blake3::hash(b"me\x001\x002").to_hex()[..32].to_string());
    let none = eff_hash(None, &deps(&[]), &map(&[]));
    assert_eq!(none, blake3::hash(b"").to_hex()[..32].to_string());
}

fn drv(name: &str, inputs: &[&str]) -> DrvFile {
    let mut ins = String::new();
    for (i, p) in inputs.iter().enumerate() {
        if i > 0 {
            ins.push(',');
        }
        ins.push_str(&format!("(\"{}\",[\"out\"])", p));
    }
    DrvFile::Contents(
        format!(
            "Derive([(\"out\",\"/nix/store/{n}\",\"\",\"\")],[{i}],[],\"x\",\"/bin/sh\",[],[(\"crateName\",\"{n}\")])",
            n = name,
            i = ins
        )
        .into_bytes(),
    )
}

fn chain() -> BuildGraph {
    let mut store: StrMap<DrvFile> = StrMap::new();
    store.insert("/a.drv".into(), drv("a", &[]));
    store.insert("/b.drv".into(), drv("b", &["/a.drv", "/r.drv"]));
    store.insert("/c.drv".into(), drv("c", &["/b.drv"]));
    store.insert("/r.drv".into(), drv("r", &[]));
    BuildGraph::from_roots(&deps(&["/c.drv"]), StrSet::new(), &store).unwrap()
}

#[test]
fn tracking_goes_downstream() {
    let g = chain();
    let mut o: StrMap<OwnHash> = StrMap::new();
    o.insert("/b.drv".into(), own("src"));
    let t = tracked_set(&g, &o);
    assert!(t.contains("/b.drv") && t.contains("/c.drv"));
    assert!(!t.contains("/a.drv") && !t.contains("/r.drv"));
}

#[test]
fn overrides_cascade() {
    let g = chain();
    let mut o: StrMap<OwnHash> = StrMap::new();
    o.insert(
        "/a.drv".into(),
        OwnHash {
            hash: "v1".into(),
            src_dir: "/live/a".into(),
        },
    );
    let first = cascade(&g, &o);
    assert_eq!(first.len(), 3);
    assert_eq!(
        first.get("/a.drv").unwrap().src_path.as_deref(),
        Some("/live/a")
    );
    o.insert(
        "/a.drv".into(),
        OwnHash {
            hash: "v2".into(),
            src_dir: "/live/a".into(),
        },
    );
    let second = cascade(&g, &o);
    for d in ["/a.drv", "/b.drv", "/c.drv"] {
        assert_ne!(
            first.get(d).unwrap().source_hash,
            second.get(d).unwrap().source_hash
        );
    }
    assert!(first.get("/r.drv").is_none());
}

#[test]
fn graph_from_real_drv() {
    let drv_path = "/nix/store/ps4wmxcnwk3sx6177pn0rwbr2ix7sps4-rust_hello-0.1.0.drv";
    let mut store: StrMap<DrvFile> = StrMap::new();
    store.insert(drv_path.into(), drv("hello", &["/nix/store/0-rust_serde.drv"]));
    store.insert(
        "/nix/store/0-rust_serde.drv".into(),
        drv("serde", &["/nix/store/1-rust_serde_core.drv", "/nix/store/2-bash.drv"]),
    );
    store.insert("/nix/store/1-rust_serde_core.drv".into(), drv("serde_core", &[]));
    let graph = BuildGraph::from_roots(&deps(&[drv_path]), StrSet::new(), &store).unwrap();
    assert!(
        graph.crate_count() >= 1,
        "expected at least 1 crate, got {}",
        graph.crate_count()
    );
    assert_eq!(graph.crate_count(), 3);
    let pos = |p: &str| graph.topo_order.iter().position(|x| x == p).unwrap();
    for i in 0..graph.nodes.len() {
        let node = graph.nodes.value(i);
        for dep in &node.crate_deps {
            assert!(
                pos(dep) < pos(&node.drv_path),
                "dep {} (pos {}) should come before {} (pos {})",
                dep,
                pos(dep),
                node.drv_path,
                pos(&node.drv_path)
            );
        }
    }
}

#[test]
fn cycles_are_reported() {
    let mut store: StrMap<DrvFile> = StrMap::new();
    store.insert("/a.drv".into(), drv("a", &["/b.drv"]));
    store.insert("/b.drv".into(), drv("b", &["/a.drv"]));
    store.insert("/c.drv".into(), drv("c", &["/a.drv"]));
    let e = BuildGraph::from_roots(&deps(&["/c.drv"]), StrSet::new(), &store).unwrap_err();
    assert_eq!(e, "cycle detected: sorted 0 of 3 nodes");
}

#[test]
fn broken_derivations_are_reported() {
    let mut store: StrMap<DrvFile> = StrMap::new();
    store.insert("/a.drv".into(), DrvFile::Contents(b"nonsense".to_vec()));
    assert!(BuildGraph::from_roots(&deps(&["/a.drv"]), StrSet::new(), &store).is_err());
}

#[test]
fn edits_move_what_reaches_them() {
    // a <- b <- c, and d beside them
    let mut store: StrMap<DrvFile> = StrMap::new();
    store.insert("/a.drv".into(), drv("a", &[]));
    store.insert("/b.drv".into(), drv("b", &["/a.drv"]));
    store.insert("/c.drv".into(), drv("c", &["/b.drv", "/d.drv"]));
    store.insert("/d.drv".into(), drv("d", &[]));
    let g = BuildGraph::from_roots(&deps(&["/c.drv"]), StrSet::new(), &store).unwrap();
    let with = |a: &str| {
        let mut o: StrMap<OwnHash> = StrMap::new();
        o.insert("/a.drv".into(), own(a));
        o.insert("/d.drv".into(), own("d1"));
        o
    };
    let r = cascade(&g, &with("a1"));
    let s = cascade(&g, &with("a2"));
    assert_eq!(r.keys(), s.keys());
    let moved = |x: &str| r.get(x).unwrap().source_hash != s.get(x).unwrap().source_hash;
    assert!(moved("/a.drv") && moved("/b.drv") && moved("/c.drv"));
    assert!(!moved("/d.drv"));
    let h = &r.get("/c.drv").unwrap().source_hash;
    assert!(h.len() == 32 && h.chars().all(|c| c.is_ascii_hexdigit()));
}
