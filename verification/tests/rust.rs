use bob::backend::{cached_artifact_ok, gather_policies, unit_hashes, Backend, OutputNames, RepoFacts};
use bob::cc_backend::CcBackend;
use bob::cc_units::parse;
use bob::drv::Derivation;
use bob::graph::{BuildGraph, DrvFile};
use bob::resolve::EvalFile;
use bob::rust_backend::RustBackend;
use bob::rust_pipeline::{
    artifact_has_link_output, is_linking, is_pipelineable, lib_filename, needs_link_output,
};
use bob::rust_workspace::{
    compute_workspace_members, is_pattern, lock_hash, pick_drvs, FoundMember,
};
use bob::strmap::{StrMap, StrSet};

fn contents(env: &[(&str, &str)], inputs: &[&str]) -> Vec<u8> {
    let ins: Vec<String> = inputs.iter().map(|p| format!("(\"{}\",[\"out\"])", p)).collect();
    let vars: Vec<String> = env.iter().map(|(k, v)| format!("(\"{}\",\"{}\")", k, v)).collect();
    format!(
        "Derive([(\"out\",\"/nix/store/o\",\"\",\"\")],[{}],[],\"x\",\"/bin/sh\",[],[{}])",
        ins.join(","),
        vars.join(",")
    )
    .into_bytes()
}

fn drv(env: &[(&str, &str)]) -> Derivation {
    Derivation::parse(&contents(env, &[])).unwrap()
}

fn found(rel: &str, package: Option<&str>) -> FoundMember {
    FoundMember {
        rel: rel.into(),
        package: package.map(|p| p.to_string()),
    }
}

#[test]
fn workspace_members_glob_and_literal() {
    let m = compute_workspace_members(&vec![
        found("crates/a", Some("alpha")),
        found("crates/b", Some("beta")),
        found("crates/ignored", None),
        found("tools/standalone", Some("standalone")),
    ]);
    assert_eq!(m.get("alpha").map(|s| s.as_str()), Some("crates/a"));
    assert_eq!(m.get("beta").map(|s| s.as_str()), Some("crates/b"));
    assert_eq!(
        m.get("standalone").map(|s| s.as_str()),
        Some("tools/standalone")
    );
    assert!(!m.contains_key("nope"));
    assert_eq!(m.len(), 3);
    assert!(is_pattern("crates/*") && is_pattern("a?") && is_pattern("[ab]"));
    assert!(!is_pattern("tools/standalone"));
}

#[test]
fn later_members_count() {
    let m = compute_workspace_members(&vec![found("a", Some("x")), found("b", Some("x"))]);
    assert_eq!(m.get("x").unwrap(), "b");
}

#[test]
fn pipelining_follows_the_crate_type() {
    assert!(is_pipelineable(&drv(&[("crateType", "lib")])));
    assert!(is_pipelineable(&drv(&[("crateType", "cdylib  rlib")])));
    assert!(!is_pipelineable(&drv(&[("crateType", "proc-macro")])));
    assert!(!is_pipelineable(&drv(&[("crateType", "lib"), ("crateLinks", "z")])));
    assert!(is_pipelineable(&drv(&[("crateType", "lib"), ("crateLinks", "")])));
    assert!(!is_pipelineable(&drv(&[])));
    assert!(!is_linking(&drv(&[("crateType", "lib rlib")])));
    assert!(is_linking(&drv(&[("crateType", "lib cdylib")])));
    assert!(is_linking(&drv(&[("crateType", "bin")])));
    assert!(is_linking(&drv(&[])));
    assert!(needs_link_output(&drv(&[("crateType", "lib cdylib")])));
    assert!(!needs_link_output(&drv(&[("crateType", "lib")])));
}

#[test]
fn file_names_of_libraries() {
    let d = drv(&[("libName", "a-b-c"), ("metadata", "99")]);
    assert_eq!(lib_filename(&d, "rmeta").as_deref(), Some("liba_b_c-99.rmeta"));
    assert_eq!(lib_filename(&drv(&[("libName", "a")]), "rlib"), None);
    assert_eq!(lib_filename(&drv(&[("metadata", "a")]), "rlib"), None);
}

#[test]
fn targets_need_their_link_output() {
    let d = drv(&[("crateType", "lib cdylib")]);
    let rlib = vec!["libx.rlib".to_string()];
    let so = vec!["libx.rlib".to_string(), "libx.so".to_string()];
    assert!(!artifact_has_link_output(&rlib));
    assert!(artifact_has_link_output(&so));
    let b: &dyn Backend = &RustBackend;
    assert!(cached_artifact_ok(true, false, b, &d, &rlib));
    assert!(!cached_artifact_ok(true, true, b, &d, &rlib));
    assert!(cached_artifact_ok(true, true, b, &d, &so));
    assert!(!cached_artifact_ok(false, true, b, &d, &so));
    assert!(cached_artifact_ok(true, true, &CcBackend, &d, &rlib));
}

#[test]
fn outputs_of_crates() {
    let b = RustBackend;
    let d = drv(&[("crateName", "x")]);
    let mut names: StrMap<OutputNames> = StrMap::new();
    assert!(!b.output_populated(&names, &d));
    names.insert("out".into(), OutputNames { lib: vec!["x.rlib".into()], bin: vec![] });
    assert!(!b.output_populated(&names, &d));
    names.insert("out".into(), OutputNames { lib: vec![], bin: vec!["x".into()] });
    assert!(b.output_populated(&names, &d));
    assert_eq!(b.unit_name(&d), "x");
    assert_eq!(b.unit_name(&drv(&[])), "?");
    assert_eq!(b.id(), "rust");
}

fn graph() -> BuildGraph {
    let mut store: StrMap<DrvFile> = StrMap::new();
    store.insert(
        "/a.drv".into(),
        DrvFile::Contents(contents(&[("crateName", "x"), ("version", "0.0.0"), ("crateType", "lib")], &[])),
    );
    store.insert(
        "/b.drv".into(),
        DrvFile::Contents(contents(&[("crateName", "x"), ("version", "1.0.0")], &[])),
    );
    store.insert(
        "/c.drv".into(),
        DrvFile::Contents(contents(
            &[("crateName", "y"), ("version", "0.0.0"), ("crateType", "bin")],
            &["/a.drv", "/b.drv", "/d.drv"],
        )),
    );
    store.insert(
        "/d.drv".into(),
        DrvFile::Contents(contents(&[("crateName", "y"), ("version", "0.0.0")], &["/e.drv"])),
    );
    store.insert("/e.drv".into(), DrvFile::Contents(contents(&[("pname", "c")], &[])));
    let mut declared = StrSet::new();
    declared.insert("/e.drv".into());
    BuildGraph::from_roots(&vec!["/c.drv".to_string()], declared, &store).unwrap()
}

fn repo() -> RepoFacts {
    RepoFacts {
        members: compute_workspace_members(&vec![
            found("cx", Some("x")),
            found("cz", Some("z")),
        ]),
        cc_units: parse(r#"{"c":{"drv":"/e.drv","src":"native/c"}}"#).unwrap(),
    }
}

#[test]
fn local_crates_are_taken() {
    let (picked, warnings) = pick_drvs(&graph());
    assert_eq!(picked.get("x").unwrap(), "/a.drv");
    assert_eq!(picked.get("y").unwrap(), "/d.drv");
    assert_eq!(
        warnings,
        vec!["  warn: workspace crate 'y' has multiple drvs (/c.drv and /d.drv); source-change tracking will only cover one"]
    );
}

#[test]
fn watched_directories_are_hashed() {
    let g = graph();
    let r = repo();
    let dirs = RustBackend.workspace_unit_dirs(&g, &r);
    assert_eq!(dirs.len(), 1);
    assert_eq!(dirs.get("/a.drv").unwrap(), "cx");
    let cc = CcBackend.workspace_unit_dirs(&g, &r);
    assert_eq!(cc.get("/e.drv").unwrap(), "native/c");
    let mut hashes: StrMap<String> = StrMap::new();
    hashes.insert("/a.drv".into(), "h".into());
    hashes.insert("/q.drv".into(), "h".into());
    let own = unit_hashes("/repo", &dirs, &hashes);
    assert_eq!(own.len(), 1);
    assert_eq!(own.get("/a.drv").unwrap().src_dir, "/repo/cx");
    assert_eq!(own.get("/a.drv").unwrap().hash, "h");
}

#[test]
fn policies_of_units() {
    let g = graph();
    let backends: Vec<&dyn Backend> = vec![&RustBackend, &CcBackend];
    let p = gather_policies(&g, &backends, &repo());
    assert!(p.pipelineable.contains("/a.drv"));
    assert!(!p.pipelineable.contains("/c.drv") && !p.pipelineable.contains("/e.drv"));
    assert!(!p.links.contains("/a.drv"));
    assert!(p.links.contains("/c.drv") && p.links.contains("/e.drv"));
}

#[test]
fn lock_hashes() {
    let none: Vec<String> = vec![];
    assert_eq!(
        lock_hash(b"lock", &none, vec![]),
        blake3::hash(b"lock").to_hex()[..16].to_string()
    );
    let globs = vec!["f".to_string()];
    let files = vec![EvalFile {
        path: "/r/f".into(),
        rel: "f".into(),
        bytes: Some(b"x".to_vec()),
    }];
    assert_eq!(
        lock_hash(b"lock", &globs, files),
        blake3::hash(b"lock\0glob\0f\0file\0f\0x").to_hex()[..16].to_string()
    );
}

#[test]
fn backends_pick_directories_and_locks() {
    let (rust, cc): (&dyn Backend, &dyn Backend) = (&RustBackend, &CcBackend);
    assert!(rust.skip_dir("target") && !rust.skip_dir("build") && !rust.skip_dir("src"));
    assert!(cc.skip_dir("target") && cc.skip_dir("build") && !cc.skip_dir("src"));
    assert_eq!(rust.lock_file().as_deref(), Some("Cargo.lock"));
    assert_eq!(cc.lock_file(), None);
    let none: Vec<String> = vec![];
    assert_eq!(rust.lock_hash(b"lock", &none, vec![]), lock_hash(b"lock", &none, vec![]));
    assert_eq!(cc.lock_hash(b"lock", &none, vec![]), "");
}
