use bob::backend::{Backend, RepoFacts};
use bob::cache::ArtifactCache;
use bob::cc_backend::CcBackend;
use bob::executor::effective_key;
use bob::graph::{BuildGraph, DrvFile};
use bob::overrides::{tracked_set, OwnHash};
use bob::run::{cached_upfront, gather_facts, Outcome, Run, Step};
use bob::rust_backend::RustBackend;
use bob::scheduler::{Facts, Next, SharedState, Status};
use bob::strmap::{StrMap, StrSet};

fn facts(deps: Vec<Vec<usize>>, early: bool) -> Facts {
    let n = deps.len();
    Facts {
        deps,
        keyed: vec![false; n],
        cached: vec![false; n],
        pipelineable: vec![early; n],
        links: vec![true; n],
    }
}

#[test]
fn units_are_built_in_order() {
    // 0 <- 1 <- 3, 0 <- 2 <- 3
    let f = facts(vec![vec![], vec![0], vec![0], vec![1, 2]], false);
    let mut s = SharedState::plan(&f);
    let mut order: Vec<usize> = Vec::new();
    loop {
        match s.next() {
            Next::Stop => break,
            Next::Wait => panic!("nothing is in flight"),
            Next::Unit(x) => {
                s.start(x);
                s.succeed(x);
                order.push(x);
            }
        }
    }
    assert_eq!(order.len(), 4);
    assert_eq!(order[0], 0);
    assert_eq!(order[3], 3);
    assert!(s.all_done());
    assert_eq!(s.succeeded, 4);
}

#[test]
fn early_signals_release_dependents() {
    let f = facts(vec![vec![], vec![0]], true);
    let mut s = SharedState::plan(&f);
    assert_eq!(s.next(), Next::Unit(0));
    s.start(0);
    assert_eq!(s.next(), Next::Wait);
    s.fire_early(0);
    s.fire_early(0);
    assert_eq!(s.next(), Next::Unit(1));
    s.start(1);
    s.succeed(0);
    assert_eq!(s.status[0], Status::Done);
    s.succeed(1);
    assert!(s.all_done());
}

#[test]
fn failures_stop_the_run() {
    let f = facts(vec![vec![], vec![0]], false);
    let mut s = SharedState::plan(&f);
    assert_eq!(s.next(), Next::Unit(0));
    s.start(0);
    s.fail(0);
    assert!(s.all_done());
    assert_eq!(s.next(), Next::Stop);
    assert_eq!(s.failed, 1);
    assert_eq!(s.status[1], Status::Waiting);
}

#[test]
fn cached_units_are_not_scheduled() {
    let mut f = facts(vec![vec![], vec![0]], false);
    f.cached[0] = true;
    let mut s = SharedState::plan(&f);
    assert_eq!(s.status[0], Status::Idle);
    assert_eq!(s.next(), Next::Unit(1));
    s.late_hit(1);
    assert!(s.all_done());
    assert_eq!(s.late_cached, 1);
}

#[test]
fn keyed_links_wait_for_commit() {
    let mut f = facts(vec![vec![], vec![0], vec![0]], true);
    f.keyed = vec![true, true, true];
    f.links = vec![false, true, false];
    let mut s = SharedState::plan(&f);
    assert_eq!(s.next(), Next::Unit(0));
    s.start(0);
    s.fire_early(0);
    assert_eq!(s.next(), Next::Unit(2));
    assert_eq!(s.next(), Next::Wait);
    s.succeed(0);
    assert_eq!(s.next(), Next::Unit(1));
}

fn drv(name: &str, inputs: &[&str]) -> DrvFile {
    let ins: Vec<String> = inputs.iter().map(|p| format!("(\"{}\",[\"out\"])", p)).collect();
    DrvFile::Contents(
        format!(
            "Derive([(\"out\",\"/nix/store/{n}\",\"\",\"\")],[{i}],[],\"x\",\"/bin/sh\",[],[(\"crateName\",\"{n}\")])",
            n = name,
            i = ins.join(",")
        )
        .into_bytes(),
    )
}

fn graph() -> BuildGraph {
    let mut store: StrMap<DrvFile> = StrMap::new();
    store.insert("/a.drv".into(), drv("a", &[]));
    store.insert("/b.drv".into(), drv("b", &["/a.drv"]));
    BuildGraph::from_roots(&vec!["/b.drv".to_string()], StrSet::new(), &store).unwrap()
}

fn own(hash: &str) -> StrMap<OwnHash> {
    let mut o: StrMap<OwnHash> = StrMap::new();
    o.insert(
        "/a.drv".into(),
        OwnHash {
            hash: hash.into(),
            src_dir: "/live".into(),
        },
    );
    o
}

/// Builds both units and gives the key of each.
fn keys(src: &str, out_hash: &str) -> (String, String) {
    let g = graph();
    let cache = ArtifactCache::from_path("/c".into());
    let o = own(src);
    let keyed = tracked_set(&g, &o);
    let none = StrSet::new();
    let mut links = StrSet::new();
    links.insert("/a.drv".into());
    links.insert("/b.drv".into());
    let f = gather_facts(&g, &keyed, &none, &none, &links);
    let mut run = Run::new(&g, &cache, &o, &keyed, &links, &f);
    assert_eq!(run.state.next(), Next::Unit(0));
    let ka = run.take_key(0);
    let places = run.start(0);
    assert_eq!(places.len(), 0);
    run.finish(
        0,
        Outcome::Built {
            out_hash: Some(out_hash.into()),
            early_hash: None,
        },
    );
    assert_eq!(run.state.next(), Next::Unit(1));
    let kb = run.take_key(1);
    let places = run.start(1);
    assert_eq!(
        places.get("/nix/store/a").unwrap(),
        &format!("{}/out", cache.tmp_dir("/a.drv"))
    );
    run.finish(1, Outcome::Failed);
    let r = run.result();
    assert_eq!(r.failed, 1);
    assert_eq!(r.keys.get("/b.drv").unwrap(), &kb);
    (ka, kb)
}

#[test]
fn unchanged_outputs_cut_off() {
    let (a1, b1) = keys("v1", "same");
    let (a2, b2) = keys("v2", "same");
    let (a3, b3) = keys("v2", "other");
    assert_ne!(a1, a2);
    assert_eq!(b1, b2);
    assert_eq!(a2, a3);
    assert_ne!(b2, b3);
}

#[test]
fn late_hits_point_at_the_cache() {
    let g = graph();
    let cache = ArtifactCache::from_path("/c".into());
    let o = own("v1");
    let keyed = tracked_set(&g, &o);
    let none = StrSet::new();
    let f = gather_facts(&g, &keyed, &none, &none, &none);
    let mut run = Run::new(&g, &cache, &o, &keyed, &none, &f);
    assert_eq!(run.state.next(), Next::Unit(0));
    let k = run.take_key(0);
    run.late_hit(0, &k, Some("out".into()), Some("early".into()));
    assert_eq!(run.state.late_cached, 1);
    assert_eq!(run.state.next(), Next::Unit(1));
    let _ = run.take_key(1);
    let places = run.start(1);
    assert_eq!(
        places.get("/nix/store/a").unwrap(),
        &format!("{}/out", cache.artifact_dir_by_key(&k))
    );
    run.signal(1, Some("e".into()));
    run.finish(
        1,
        Outcome::Built {
            out_hash: None,
            early_hash: None,
        },
    );
    assert!(run.state.all_done());
}

#[test]
fn missing_inputs_are_found_once() {
    let mut store: StrMap<DrvFile> = StrMap::new();
    store.insert("/a.drv".into(), drv("a", &["/tool.drv"]));
    store.insert("/b.drv".into(), drv("b", &["/a.drv", "/tool.drv"]));
    store.insert(
        "/tool.drv".into(),
        DrvFile::Contents(
            br#"Derive([("out","/nix/store/tool","","")],[],[],"x","/bin/sh",[],[])"#.to_vec(),
        ),
    );
    let g = BuildGraph::from_roots(&vec!["/b.drv".to_string()], StrSet::new(), &store).unwrap();
    assert_eq!(g.non_crate_inputs(&store, &StrSet::new()), vec!["/tool.drv"]);
    let mut there = StrSet::new();
    there.insert("/nix/store/tool".into());
    assert_eq!(g.non_crate_inputs(&store, &there).len(), 0);
}

#[test]
fn overrides_lead_to_the_settled_key() {
    let g = graph();
    let cache = ArtifactCache::from_path("/c".into());
    let o = own("v1");
    let keyed = tracked_set(&g, &o);
    let none = StrSet::new();
    let f = gather_facts(&g, &keyed, &none, &none, &none);
    let mut run = Run::new(&g, &cache, &o, &keyed, &none, &f);
    assert_eq!(run.state.next(), Next::Unit(0));
    let ov = run.source_override(0).unwrap();
    assert_eq!(ov.src_path.as_deref(), Some("/live"));
    assert_eq!(run.take_key(0), effective_key("/a.drv", Some(&ov)));

    let untracked = Run::new(&g, &cache, &o, &none, &none, &f);
    assert!(untracked.source_override(0).is_none());
}

#[test]
fn steps_settle_keys() {
    let g = graph();
    let cache = ArtifactCache::from_path("/c".into());
    let o = own("v1");
    let keyed = tracked_set(&g, &o);
    let none = StrSet::new();
    let f = gather_facts(&g, &keyed, &none, &none, &none);
    let mut run = Run::new(&g, &cache, &o, &keyed, &none, &f);
    match run.step() {
        Step::Look { unit, key, src } => {
            assert_eq!(unit, 0);
            assert_eq!(key, effective_key("/a.drv", src.as_ref()));
            run.start(unit);
        }
        _ => panic!("a unit is ready"),
    }
    assert!(matches!(run.step(), Step::Wait));
    run.finish(0, Outcome::Failed);
    assert!(matches!(run.step(), Step::Stop));
}

#[test]
fn what_will_do_is_cached_upfront() {
    let g = graph();
    let none = StrSet::new();
    let backends: Vec<&dyn Backend> = vec![&RustBackend, &CcBackend];
    let repo = RepoFacts {
        members: StrMap::new(),
        cc_units: StrMap::new(),
    };
    let roots = vec!["/b.drv".to_string()];
    let mut artifacts: StrMap<Vec<String>> = StrMap::new();
    artifacts.insert(ArtifactCache::cache_key("/a.drv"), vec![]);
    let cached = cached_upfront(&g, &none, &roots, &backends, &repo, &artifacts);
    assert_eq!(cached.items(), vec!["/a.drv".to_string()]);

    let f = gather_facts(&g, &none, &cached, &none, &none);
    let cache = ArtifactCache::from_path("/c".into());
    let o: StrMap<OwnHash> = StrMap::new();
    let run = Run::new(&g, &cache, &o, &none, &none, &f);
    assert_eq!(run.state.ready, vec![1]);

    // The key of a tracked unit is not known from the start.
    let keyed = tracked_set(&g, &own("v1"));
    let cached = cached_upfront(&g, &keyed, &roots, &backends, &repo, &artifacts);
    assert_eq!(cached.items(), Vec::<String>::new());
}

#[test]
fn what_is_in_the_cache_is_skipped() {
    let g = graph();
    let cache = ArtifactCache::from_path("/c".into());
    let o = own("v1");
    let keyed = tracked_set(&g, &o);
    let none = StrSet::new();
    let f = gather_facts(&g, &keyed, &none, &none, &none);
    let mut run = Run::new(&g, &cache, &o, &keyed, &none, &f);
    let key = match run.step() {
        Step::Look { unit: 0, key, .. } => key,
        _ => panic!("the first unit is ready"),
    };
    let names: Vec<String> = vec![];
    let r = run.look(0, &key, Some(&names), false, &RustBackend, Some("o".into()), None);
    assert!(r.is_none());
    assert_eq!(run.state.late_cached, 1);
    let key = match run.step() {
        Step::Look { unit: 1, key, .. } => key,
        _ => panic!("the second unit is ready"),
    };
    let deps = run.look(1, &key, None, true, &RustBackend, None, None).unwrap();
    assert!(deps.get("/nix/store/a").unwrap().starts_with("/c/artifacts/"));
    assert_eq!(run.state.in_flight, 1);
    run.finish(1, Outcome::Failed);
    let keys = run.result().keys;
    assert_eq!(keys.keys(), vec!["/a.drv".to_string(), "/b.drv".to_string()]);
}

#[test]
fn signals_come_before_completions() {
    // 2 waits for the signal of 0 alone, 1 for its completion.
    let mut f = facts(vec![vec![], vec![0], vec![0]], true);
    f.keyed = vec![true, true, false];
    let mut s = SharedState::plan(&f);
    assert_eq!(s.next(), Next::Unit(0));
    s.start(0);
    s.succeed(0);
    assert_eq!(s.ready, vec![2, 1]);
}

#[test]
fn targets_without_link_output_are_built() {
    let text = "Derive([(\"out\",\"/nix/store/a\",\"\",\"\")],[],[],\"x\",\"/bin/sh\",[],[(\"crateName\",\"a\"),(\"crateType\",\"lib cdylib\")])";
    let mut store: StrMap<DrvFile> = StrMap::new();
    store.insert("/a.drv".into(), DrvFile::Contents(text.as_bytes().to_vec()));
    let g = BuildGraph::from_roots(&vec!["/a.drv".to_string()], StrSet::new(), &store).unwrap();
    let cache = ArtifactCache::from_path("/c".into());
    let o = own("v1");
    let keyed = tracked_set(&g, &o);
    let none = StrSet::new();
    let f = gather_facts(&g, &keyed, &none, &none, &none);
    let found = |names: Vec<String>, is_root: bool| {
        let mut run = Run::new(&g, &cache, &o, &keyed, &none, &f);
        let key = match run.step() {
            Step::Look { unit: 0, key, .. } => key,
            _ => panic!("the unit is ready"),
        };
        let r = run.look(0, &key, Some(&names), is_root, &RustBackend, None, None);
        assert_eq!(run.state.late_cached, if r.is_none() { 1 } else { 0 });
        r.is_none()
    };
    let rlib = vec!["liba.rlib".to_string()];
    assert!(found(rlib.clone(), false));
    assert!(!found(rlib.clone(), true));
    assert!(found(vec!["liba.rlib".to_string(), "liba.so".to_string()], true));
}
