use bob::backend::{Backend, BuildContext, OutputNames, RepoFacts};
use bob::cache::ArtifactCache;
use bob::cc_backend::CcBackend;
use bob::cc_hooks;
use bob::cc_units::{
    cc_target_names, load, parse, project_name, skip_dir, units_expr, units_path, CcUnit,
};
use bob::drv::{Derivation, Output};
use bob::strmap::StrMap;

fn output(path: &str) -> Output {
    Output {
        path: path.into(),
        hash_algo: String::new(),
        hash: String::new(),
    }
}

fn fake_drv() -> Derivation {
    let mut outputs: StrMap<Output> = StrMap::new();
    outputs.insert("out".into(), output("/nix/store/x-foo"));
    let mut env: StrMap<String> = StrMap::new();
    env.insert("pname".into(), "libfoo".into());
    Derivation {
        outputs,
        input_derivations: StrMap::new(),
        input_sources: vec![],
        platform: "x86_64-linux".into(),
        builder: "/bin/sh".into(),
        args: vec![],
        env,
    }
}

fn names(lib: &[&str], bin: &[&str]) -> OutputNames {
    OutputNames {
        lib: lib.iter().map(|s| s.to_string()).collect(),
        bin: bin.iter().map(|s| s.to_string()).collect(),
    }
}

#[test]
fn parse_cc_units_json() {
    let json = r#"{"ndl":{"drv":"/nix/store/aaa-kmdlib.drv","src":"extra-code/b16/aws-neuron-kmdlib"},"pjrt":{"drv":"/nix/store/bbb-pjrt.drv","src":"extra-code/b16/pjrt"}}"#;
    let m = parse(json).unwrap();
    assert_eq!(m.len(), 2);
    assert_eq!(m.get("/nix/store/aaa-kmdlib.drv").unwrap().name, "ndl");
    assert_eq!(
        m.get("/nix/store/aaa-kmdlib.drv").unwrap().src,
        "extra-code/b16/aws-neuron-kmdlib"
    );
    assert_eq!(m.get("/nix/store/bbb-pjrt.drv").unwrap().name, "pjrt");
}

#[test]
fn parse_tolerates_null_src_and_empty() {
    let json = r#"{"bare":{"drv":"/nix/store/x.drv","src":null}}"#;
    assert_eq!(parse(json).unwrap().len(), 0);
    assert_eq!(parse("{}").unwrap().len(), 0);
}

#[test]
fn parse_mixed_units() {
    let json = r#"{"a":{"src":"sa","drv":"/a.drv"},"b":{"drv":"/b.drv","src":null},"c":{"drv":"/c.drv","src":"sc"}}"#;
    let m = parse(json).unwrap();
    assert_eq!(m.len(), 2);
    assert_eq!(m.get("/a.drv").unwrap().src, "sa");
    assert_eq!(m.get("/c.drv").unwrap().name, "c");
}

#[test]
fn evaluated_units() {
    assert_eq!(load(true, "{}", "").unwrap().len(), 0);
    assert_eq!(
        load(false, "", "boom").unwrap_err(),
        "evaluating cc units: boom"
    );
    let p = units_path("/c/bob", b"x");
    assert!(p.starts_with("/c/bob/eval/ccunits."), "{}", p);
    assert!(p.ends_with(".json"));
    assert_eq!(p.len(), "/c/bob/eval/ccunits.".len() + 16 + ".json".len());
    assert_ne!(p, units_path("/c/bob", b"y"));
    assert!(units_expr("/repo").contains("((import /repo/bob.nix {}).cc or {})"));
}

#[test]
fn project_name_variants() {
    assert_eq!(
        project_name(Some("Project( libfoo VERSION 1.0 LANGUAGES C CXX)\n"), None).as_deref(),
        Some("libfoo")
    );
    assert_eq!(
        project_name(None, Some("project('libbar', 'c')\n")).as_deref(),
        Some("libbar")
    );
}

#[test]
fn project_name_edge_cases() {
    // A name that has to be expanded is passed over.
    assert_eq!(
        project_name(Some("project(${NAME})\n  PROJECT(real)\n"), None).as_deref(),
        Some("real")
    );
    assert_eq!(project_name(Some("project()\n"), Some("x")), None);
    assert_eq!(
        project_name(Some("add_library(a)\n"), Some("project (\"m\")")).as_deref(),
        Some("m")
    );
    assert_eq!(project_name(None, None), None);
}

#[test]
fn declared_units_are_targets() {
    let repo = RepoFacts {
        members: StrMap::new(),
        cc_units: parse(r#"{"b":{"drv":"/b.drv","src":"sb"},"a":{"drv":"/a.drv","src":"sa"}}"#)
            .unwrap(),
    };
    let cc = CcBackend;
    let drv = fake_drv();
    assert!(cc.is_unit("/a.drv", &drv, &repo));
    assert!(!cc.is_unit("/c.drv", &drv, &repo));
    assert_eq!(cc.unit_name(&drv), "libfoo");
    assert_eq!(cc.resolve_attr("a", &repo).as_deref(), Some("cc.a"));
    assert_eq!(cc.resolve_attr("c", &repo), None);
    assert_eq!(cc.list_targets(&repo), vec!["a", "b"]);
    assert!(cc.pipeline().is_none());
    assert_eq!(cc.id(), "cc");
    assert!(cc_target_names(&repo.cc_units).contains("b"));
    assert!(skip_dir("build") && skip_dir("target") && !skip_dir("src"));
    let unit: &CcUnit = repo.cc_units.get("/b.drv").unwrap();
    assert_eq!(unit.src, "sb");
}

#[test]
fn hooks_are_drv_keyed() {
    let cache = ArtifactCache::from_path("/tmp/cache".into());
    let drv = fake_drv();
    let ctx = BuildContext {
        drv_path: "/nix/store/aaaa-libfoo.drv",
        drv: &drv,
        tmp: "/tmp/cache/tmp/effkey",
        cache: &cache,
        is_root: true,
        self_exe: "/bin/false",
    };
    let s = cc_hooks::build_script_hooks(&ctx).lines;
    let inc = cache.incremental_dir("/nix/store/aaaa-libfoo.drv");
    assert!(s.contains(&inc));
    assert!(!s.contains("effkey"));
    assert!(s.contains("dontUnpack=1"));
    assert!(s.contains("cmakeDir=\"$src\""));
    assert!(s.contains(&format!("  if [[ -e '{}/meson-private' ]]; then\n", inc)));
    let moved = BuildContext { tmp: "/tmp/cache/tmp/other", is_root: false, ..ctx };
    assert_eq!(cc_hooks::build_script_hooks(&moved).lines, s);
}

#[test]
fn output_populated_checks_all_outputs() {
    let mut drv = fake_drv();
    drv.outputs.insert("dev".into(), output("/nix/store/x-foo-dev"));
    let mut found: StrMap<OutputNames> = StrMap::new();
    found.insert("out".into(), names(&[], &[]));
    found.insert("dev".into(), names(&[], &[]));
    assert!(!cc_hooks::output_populated(&found, &drv));
    found.insert("out".into(), names(&["libfoo.so"], &[]));
    assert!(cc_hooks::output_populated(&found, &drv));
    let mut undeclared: StrMap<OutputNames> = StrMap::new();
    undeclared.insert("man".into(), names(&[], &["x"]));
    assert!(!cc_hooks::output_populated(&undeclared, &drv));
}
