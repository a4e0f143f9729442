use bob::backend::{Backend, BuildContext, OutputNames};
use bob::cache::ArtifactCache;
use bob::crate_executor::{
    build_crate_with_worker_signaled, crate_succeeded, is_scratch, PipelineConfig,
};
use bob::drv::{Derivation, Output};
use bob::executor::{
    build_succeeded, build_unit, committed_dirs, effective_key, env_text, make_rewriter, stays,
    SourceOverride,
};
use bob::rewrite::PathRewriter;
use bob::rust_backend::RustBackend;
use bob::strmap::StrMap;

const DRV: &str = "/nix/store/h-hello.drv";

fn drv(env: &[(&str, &str)], outputs: &[&str]) -> Derivation {
    let mut o: StrMap<Output> = StrMap::new();
    for n in outputs {
        o.insert(
            n.to_string(),
            Output {
                path: format!("/nix/store/{}", n),
                hash_algo: String::new(),
                hash: String::new(),
            },
        );
    }
    let mut e: StrMap<String> = StrMap::new();
    for (k, v) in env {
        e.insert(k.to_string(), v.to_string());
    }
    Derivation {
        outputs: o,
        input_derivations: StrMap::new(),
        input_sources: vec![],
        platform: String::new(),
        builder: String::new(),
        args: vec![],
        env: e,
    }
}

fn ctx<'a>(d: &'a Derivation, cache: &'a ArtifactCache) -> BuildContext<'a> {
    BuildContext {
        drv_path: DRV,
        drv: d,
        tmp: "",
        cache,
        is_root: false,
        self_exe: "/bin/bob",
    }
}

fn live(hash: &str) -> SourceOverride {
    SourceOverride {
        src_path: Some("/live".into()),
        source_hash: hash.into(),
    }
}

#[test]
fn plain_units_export_their_environment() {
    let cache = ArtifactCache::from_path("/c".into());
    let d = drv(
        &[
            ("crateName", "hello"),
            ("dep", "/nix/store/dep/lib"),
            ("bad-name", "x"),
            ("libName", "my-lib"),
            ("metadata", "m1"),
        ],
        &["lib", "out"],
    );
    let mut deps: StrMap<String> = StrMap::new();
    deps.insert("/nix/store/dep".into(), "/c/dep".into());
    let rw = make_rewriter(&d, &deps);
    let backend: &dyn Backend = &RustBackend;
    let b = build_unit(ctx(&d, &cache), backend, &rw, false, Some(&live("h"))).ok().unwrap();
    let tmp = cache.tmp_dir(DRV);
    assert_eq!(b.name, "hello");
    assert_eq!(b.tmp, tmp);
    assert_eq!(
        b.dest,
        cache.artifact_dir_by_key(&ArtifactCache::cache_key_with_source(DRV, "h"))
    );
    assert_eq!(b.out_paths.get("lib").unwrap(), &format!("{}/lib", tmp));
    assert_eq!(b.work_dir, format!("/c/build/{}", ArtifactCache::cache_key(DRV)));
    assert_eq!(b.files.len(), 1);
    assert_eq!(b.files[0].path, format!("{}/env.sh", tmp));
    assert_eq!(
        b.files[0].text,
        "export crateName=$'hello'\nexport dep=$'/c/dep/lib'\nexport libName=$'my-lib'\nexport metadata=$'m1'\n"
    );
    assert_eq!(b.script.path, format!("{}/builder.sh", tmp));
    let s = &b.script.text;
    assert!(s.starts_with(&format!(
        "source '{t}/env.sh'\nexport src='/live'\nexport lib='{t}/lib'\nexport out='{t}/out'\nexport outputs='out'\nexport NIX_BUILD_TOP='{w}'\n",
        t = tmp,
        w = b.work_dir
    )), "{}", s);
    assert!(s.contains(&format!(
        "export EXTRA_RUSTC_FLAGS=\"-C incremental={} ${{EXTRA_RUSTC_FLAGS:-}}\"\n",
        cache.incremental_dir(DRV)
    )));
    assert!(s.contains("export BOB_EXPECTED_RMETA='libmy_lib-m1.rmeta'\n"));
    assert!(s.contains("export BOB_SKIP_LINK_PASS='1'\n"));
    assert!(s.ends_with("exit $rc\n"));
    assert_eq!(b.hooks.shims[0].path, format!("{}/rustc-wrap/rustc", tmp));
    assert_eq!(
        b.hooks.shims[0].text,
        "#!/bin/sh\nexec '/bin/bob' __rustc-wrap \"$@\"\n"
    );
    assert_eq!(b.hooks.dirs[0], format!("{}/lib/lib", tmp));
}

#[test]
fn places_stay_when_source_changes() {
    let cache = ArtifactCache::from_path("/c".into());
    let d = drv(&[("crateName", "hello")], &["out"]);
    let rw = PathRewriter::new();
    let a = build_unit(ctx(&d, &cache), &RustBackend, &rw, false, Some(&live("1"))).ok().unwrap();
    let b = build_unit(ctx(&d, &cache), &RustBackend, &rw, false, Some(&live("2"))).ok().unwrap();
    assert_eq!(a.tmp, b.tmp);
    assert_eq!(a.work_dir, b.work_dir);
    assert_eq!(a.script.text, b.script.text);
    assert_ne!(a.dest, b.dest);
    assert_eq!(effective_key(DRV, None), ArtifactCache::cache_key(DRV));
}

#[test]
fn structured_units_source_their_attributes() {
    let cache = ArtifactCache::from_path("/c".into());
    let d = drv(&[("__json", r#"{"name":"x","deps":["/nix/store/dep"]}"#)], &["out"]);
    let mut rw = PathRewriter::new();
    rw.add("/nix/store/dep".into(), "/c/dep".into());
    let b = build_unit(ctx(&d, &cache), &RustBackend, &rw, true, None).ok().unwrap();
    let tmp = cache.tmp_dir(DRV);
    assert_eq!(b.files.len(), 2);
    assert_eq!(
        b.files[1].text,
        format!(
            "declare -a deps=('/c/dep' )\ndeclare name='x'\ndeclare -A outputs=(['out']='{}/out' )\n",
            tmp
        )
    );
    assert!(b.script.text.starts_with(&format!(
        "export NIX_ATTRS_JSON_FILE='{t}/.attrs.json'\nexport NIX_ATTRS_SH_FILE='{t}/.attrs.sh'\nsource '{t}/.attrs.sh'\n",
        t = tmp
    )));
    let none = drv(&[], &["out"]);
    assert_eq!(
        build_unit(ctx(&none, &cache), &RustBackend, &rw, true, None).err().unwrap(),
        "structuredAttrs drv missing __json"
    );
    let broken = drv(&[("__json", "{")], &["out"]);
    let e = build_unit(ctx(&broken, &cache), &RustBackend, &rw, true, None).err().unwrap();
    assert!(e.starts_with("parsing __json: "), "{}", e);
}

#[test]
fn success_needs_outputs() {
    let d = drv(&[], &["lib", "out"]);
    let mut found: StrMap<OutputNames> = StrMap::new();
    found.insert("out".into(), OutputNames { lib: vec![], bin: vec![] });
    assert!(!build_succeeded(0, &RustBackend, &found, &d));
    found.insert(
        "lib".into(),
        OutputNames {
            lib: vec!["libx.rlib".into()],
            bin: vec![],
        },
    );
    assert!(build_succeeded(0, &RustBackend, &found, &d));
    assert!(!build_succeeded(1, &RustBackend, &found, &d));
}

#[test]
fn what_is_committed_stays() {
    let mut outs: StrMap<String> = StrMap::new();
    outs.insert("out".into(), "/t/out".into());
    outs.insert("dev".into(), "/t/dev".into());
    let dirs = committed_dirs(&outs);
    assert_eq!(dirs, vec!["dev", "out", "rmeta"]);
    for d in &dirs {
        assert!(stays(d, &outs));
    }
    assert!(stays("done", &outs));
    assert!(!stays("builder.sh", &outs));
}

#[test]
fn environment_text_skips_other_names() {
    let mut env: StrMap<String> = StrMap::new();
    env.insert("a".into(), "it's\n".into());
    env.insert("b-c".into(), "x".into());
    assert_eq!(env_text(&env), "export a=$'it\\'s\\n'\n");
}

fn config(rewrites: &[(&str, &str)]) -> PipelineConfig {
    PipelineConfig {
        expected_rmeta: "libhello-m.rmeta".into(),
        skip_link_pass: false,
        rmeta_rewrites: rewrites
            .iter()
            .map(|(a, b)| (a.to_string(), b.to_string()))
            .collect(),
    }
}

#[test]
fn crates_point_at_early_metadata() {
    let cache = ArtifactCache::from_path("/c".into());
    let d = drv(&[("opts", "/nix/store/dep/lib/l.rlib"), ("outputs", "out lib")], &["out", "lib"]);
    let mut rw = PathRewriter::new();
    rw.add("/nix/store/dep".into(), "/c/tmp/k".into());
    let pl = config(&[("/c/tmp/k/lib/l.rlib", "/c/tmp/k/rmeta/l.rmeta")]);
    let b = build_crate_with_worker_signaled(DRV, &d, false, &cache, &rw, "/bin/bob", None, &pl)
        .ok()
        .unwrap();
    let tmp = cache.tmp_dir(DRV);
    assert_eq!(b.name, "unknown");
    assert_eq!(b.dest, cache.artifact_dir(DRV));
    assert_eq!(
        b.files[0].text,
        "export opts=$'/c/tmp/k/rmeta/l.rmeta'\nexport outputs=$'out lib'\n"
    );
    assert!(b.script.text.starts_with(&format!(
        "source '{t}/env.sh'\nexport out='{t}/out'\nexport lib='{t}/lib'\nexport outputs='out lib'\nexport EXTRA_RUSTC_FLAGS=",
        t = tmp
    )));
    assert!(b.script.text.contains("export BOB_SKIP_LINK_PASS=''\n"));
    assert_eq!(b.early_lib, format!("{}/lib/lib", tmp));

    let s = drv(&[("__json", r#"{"opts":"/nix/store/dep/lib/l.rlib"}"#)], &["out"]);
    let b = build_crate_with_worker_signaled(DRV, &s, true, &cache, &rw, "/bin/bob", None, &pl)
        .ok()
        .unwrap();
    assert!(b.files[1].text.contains("declare -- opts='/c/tmp/k/rmeta/l.rmeta'\n"));
    assert!(b.files[1].text.contains(&format!("[lib]='{}/lib'", tmp)));
    assert!(build_crate_with_worker_signaled(DRV, &d, true, &cache, &rw, "", None, &pl).is_err());
}

#[test]
fn crates_succeed_with_a_library_or_a_program() {
    let none: Vec<String> = vec![];
    let lib = vec!["libx.a".to_string()];
    let rmeta = vec!["libx.rmeta".to_string()];
    assert!(crate_succeeded(0, &lib, &none));
    assert!(crate_succeeded(0, &none, &rmeta));
    assert!(!crate_succeeded(0, &rmeta, &none));
    assert!(!crate_succeeded(2, &lib, &lib));
    assert!(is_scratch("builder.sh") && is_scratch("rustc-wrap") && !is_scratch("lib"));
}
