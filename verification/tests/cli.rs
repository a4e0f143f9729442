use bob::backend::{backend_for, is_unit, Backend, RepoFacts};
use bob::cache::ArtifactCache;
use bob::cc_backend::CcBackend;
use bob::cc_units::parse;
use bob::commands::{
    clean_report, dispatch_internal, extract_toml_string_value, graph_row, is_internal,
    member_in_manifest, out_link, output_order, plan_clean, predicate_key, read_build_args,
    read_target, resolve_target, show_value, status_row, unknown_target_text, Clean, Target,
};
use bob::drv::{Derivation, Output};
use bob::rust_backend::RustBackend;
use bob::strmap::StrMap;

fn strings(items: &[&str]) -> Vec<String> {
    items.iter().map(|s| s.to_string()).collect()
}

fn repo() -> RepoFacts {
    let mut members: StrMap<String> = StrMap::new();
    members.insert("hello".into(), "crates/hello".into());
    RepoFacts {
        members,
        cc_units: parse(r#"{"libfoo":{"drv":"/f.drv","src":"foo"},"hello":{"drv":"/h.drv","src":"h"}}"#)
            .unwrap(),
    }
}

fn backends() -> Vec<&'static dyn Backend> {
    vec![&RustBackend, &CcBackend]
}

#[test]
fn targets_are_told_apart() {
    assert!(matches!(read_target("/nix/store/x.drv"), Target::Derivation(d) if d == "/nix/store/x.drv"));
    assert!(matches!(read_target("."), Target::Here));
    assert!(matches!(read_target("hello"), Target::Named(n) if n == "hello"));
    assert!(matches!(read_target("/tmp/x.drv"), Target::Named(_)));
}

#[test]
fn first_backend_resolves() {
    let r = repo();
    assert_eq!(
        resolve_target(&backends(), "hello", &r).unwrap(),
        (0, "rust.workspaceMembers.hello.build".to_string())
    );
    assert_eq!(
        resolve_target(&backends(), "libfoo", &r).unwrap(),
        (1, "cc.libfoo".to_string())
    );
    assert_eq!(
        resolve_target(&backends(), "nope", &r).unwrap_err(),
        "unknown target 'nope'. some available: hello, hello, libfoo"
    );
    assert_eq!(unknown_target_text("x", vec![]), "unknown target 'x'");
    let many: Vec<String> = (0..12).rev().map(|i| format!("t{:02}", i)).collect();
    let text = unknown_target_text("x", many);
    assert!(text.ends_with("t08, t09"), "{}", text);
}

fn drv(env: &[(&str, &str)], outputs: &[&str]) -> Derivation {
    let mut o: StrMap<Output> = StrMap::new();
    for n in outputs {
        o.insert(
            n.to_string(),
            Output {
                path: format!("/nix/store/{}", n),
                hash_algo: String::new(),
                hash: String::new(),
            },
        );
    }
    let mut e: StrMap<String> = StrMap::new();
    for (k, v) in env {
        e.insert(k.to_string(), v.to_string());
    }
    Derivation {
        outputs: o,
        input_derivations: StrMap::new(),
        input_sources: vec![],
        platform: String::new(),
        builder: String::new(),
        args: vec![],
        env: e,
    }
}

#[test]
fn owners_of_units() {
    let r = repo();
    let krate = drv(&[("crateName", "x")], &["out"]);
    let plain = drv(&[], &["out"]);
    assert_eq!(backend_for(&backends(), "/f.drv", &krate, &r), 0);
    assert_eq!(backend_for(&backends(), "/f.drv", &plain, &r), 1);
    assert!(is_unit(&backends(), "/f.drv", &plain, &r));
    assert!(!is_unit(&backends(), "/g.drv", &plain, &r));
    assert_eq!(backend_for(&backends(), "/g.drv", &plain, &r), 0);
}

#[test]
fn internal_commands() {
    assert!(is_internal("__rustc-wrap") && !is_internal("build"));
    assert_eq!(dispatch_internal(&backends(), "__rustc-wrap"), Some(0));
    assert_eq!(dispatch_internal(&backends(), "__other"), None);
}

#[test]
fn predicate_keys() {
    assert_eq!(
        predicate_key(&backends(), Some(b"nix")),
        blake3::hash(b"rust\0cc\0nix").to_hex()[..16].to_string()
    );
    assert_eq!(
        predicate_key(&backends(), None),
        blake3::hash(b"rust\0cc\0").to_hex()[..16].to_string()
    );
}

#[test]
fn result_links() {
    assert_eq!(
        output_order(&drv(&[], &["dev", "lib", "out"]).outputs),
        vec!["out", "dev", "lib"]
    );
    assert_eq!(output_order(&drv(&[], &["lib"]).outputs), vec!["out", "lib"]);
    assert_eq!(out_link("result", 0, "out"), "result");
    assert_eq!(out_link("result", 0, "lib"), "result-lib");
    assert_eq!(out_link("result", 1, "out"), "result-2");
    assert_eq!(out_link("result", 2, "lib"), "result-3-lib");
}

#[test]
fn cleaning() {
    let cache = ArtifactCache::from_path("/c".into());
    let all: Vec<String> = plan_clean(&cache, &Clean::All).into_iter().map(|r| r.path).collect();
    assert_eq!(
        all,
        vec!["/c/artifacts", "/c/incremental", "/c/tmp", "/c/rmeta", "/c/build"]
    );
    let inc = plan_clean(&cache, &Clean::Incremental);
    assert_eq!(inc.len(), 1);
    assert_eq!(inc[0].path, "/c/incremental");
    let member = Clean::Member("/nix/store/x.drv".into());
    let rs = plan_clean(&cache, &member);
    assert_eq!(rs[0].label, "removed artifact: ");
    assert_eq!(rs[0].path, cache.artifact_dir("/nix/store/x.drv"));
    assert_eq!(rs[1].path, cache.incremental_dir("/nix/store/x.drv"));
    assert_eq!(clean_report(&Clean::All, "", true).as_deref(), Some("done"));
    assert_eq!(clean_report(&Clean::Incremental, "", true), None);
    assert_eq!(
        clean_report(&Clean::Incremental, "", false).as_deref(),
        Some("no incremental cache")
    );
    assert_eq!(
        clean_report(&member, "x", false).as_deref(),
        Some("nothing cached for 'x'")
    );
}

#[test]
fn rows_and_values() {
    assert_eq!(
        status_row("artifacts", 12, "3 B"),
        format!("  {:14} {:5} entries   {}", "artifacts", 12, "3 B")
    );
    assert_eq!(graph_row(7, "serde", 2), "    7. serde (2 deps)");
    assert_eq!(graph_row(1234, "a", 0), "  1234. a (0 deps)");
    let short = "x".repeat(120);
    assert_eq!(show_value(&short), short);
    assert_eq!(show_value(&"x".repeat(121)), format!("{}...", short));
    // The cut counts bytes.
    assert_eq!(show_value(&"é".repeat(61)), format!("{}...", "é".repeat(60)));
}

#[test]
fn manifests() {
    assert_eq!(
        extract_toml_string_value("name = \"foo\"").as_deref(),
        Some("foo")
    );
    assert_eq!(extract_toml_string_value("name = foo"), None);
    assert_eq!(extract_toml_string_value("name = \""), None);
    assert_eq!(extract_toml_string_value("name"), None);
    let m = "[dependencies]\nname = \"no\"\n [package] \nversion = \"1\"\nname.workspace = true\nname = \"yes\"\n";
    assert_eq!(member_in_manifest(m).as_deref(), Some("yes"));
    assert_eq!(member_in_manifest("[workspace]\nname = \"x\"\n"), None);
}

#[test]
fn build_arguments() {
    let o = read_build_args(&strings(&["a", "-j", "4", "--repo-root", "/r", "b"])).ok().unwrap();
    assert_eq!(o.jobs, Some(4));
    assert_eq!(o.repo_root.as_deref(), Some("/r"));
    assert_eq!(o.targets, vec!["a", "b"]);
    assert_eq!(read_build_args(&strings(&["-j"])).err().unwrap(), "missing job count");
    assert_eq!(read_build_args(&strings(&["-j", "x"])).err().unwrap(), "invalid job count");
    assert_eq!(
        read_build_args(&strings(&["-j", "99999999999999999999999"])).err().unwrap(),
        "invalid job count"
    );
    assert_eq!(
        read_build_args(&strings(&["--repo-root"])).err().unwrap(),
        "missing repo root"
    );
}
