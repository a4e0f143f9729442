use bob::rustc_wrap::{
    candidates, classify, closure_mark, dispatch, done_marks, exit_code, json_str_field, link_arg,
    memchr_contains, meta_ready_line, needs_libraries, needs_link_pass, relinked, resolve_arg,
    resolve_missing_rmeta_args, rmeta_arg_tmp, signals, swap_rmeta_args_to_rlib, Cfg, Message,
};
use bob::strmap::StrSet;

fn strings(items: &[&str]) -> Vec<String> {
    items.iter().map(|s| s.to_string()).collect()
}

#[test]
fn json_field_basic() {
    let line = br#"{"$message_type":"artifact","artifact":"target/lib/libfoo-abc.rmeta","emit":"metadata"}"#;
    assert_eq!(
        json_str_field(line, "artifact").as_deref(),
        Some(&b"target/lib/libfoo-abc.rmeta"[..])
    );
    assert_eq!(
        json_str_field(line, "emit").as_deref(),
        Some(&b"metadata"[..])
    );
}

#[test]
fn json_field_escapes() {
    let line = br#"{"rendered":"error: foo\n  --> src/lib.rs:1:1\n  \"quoted\"\n"}"#;
    assert_eq!(
        json_str_field(line, "rendered").as_deref(),
        Some(&b"error: foo\n  --> src/lib.rs:1:1\n  \"quoted\"\n"[..])
    );
}

#[test]
fn json_field_utf8_roundtrip() {
    let line = "{\"rendered\":\"café → │\\n\"}".as_bytes();
    assert_eq!(
        json_str_field(line, "rendered").as_deref(),
        Some("café → │\n".as_bytes())
    );
}

#[test]
fn json_field_missing_or_open() {
    assert_eq!(json_str_field(br#"{"a":"b"}"#, "c"), None);
    assert_eq!(json_str_field(br#"{"a":"b"#, "a"), None);
}

#[test]
fn rmeta_tmp_extraction() {
    let a = "syn=/root/.cache/nix-inc/tmp/abc123/rmeta/libsyn-x.rmeta";
    assert_eq!(
        rmeta_arg_tmp(a).as_deref(),
        Some("/root/.cache/nix-inc/tmp/abc123")
    );
    assert_eq!(rmeta_arg_tmp("syn=/artifacts/abc/lib/libsyn.rlib"), None);
}

#[test]
fn classify_lib_cdylib() {
    let args: Vec<String> = [
        "src/lib.rs",
        "--out-dir",
        "target/lib",
        "--crate-type",
        "lib",
        "--crate-type",
        "cdylib",
        "--color",
        "always",
    ]
    .iter()
    .map(|s| s.to_string())
    .collect();
    let c = classify(&args);
    assert!(c.out_is_target_lib);
    assert_eq!(c.lib_types, vec!["--crate-type", "lib"]);
    assert_eq!(c.link_types, vec!["--crate-type", "cdylib"]);
    assert!(!c.args.iter().any(|a| a.contains("color")));
}

#[test]
fn passes_follow_the_types() {
    let both = classify(&strings(&[
        "--crate-type",
        "lib",
        "--crate-type",
        "cdylib",
        "--out-dir",
        "target/lib",
    ]));
    assert!(!needs_libraries(&both));
    assert!(needs_link_pass(&both, 0, false));
    assert!(!needs_link_pass(&both, 1, false));
    assert!(!needs_link_pass(&both, 0, true));
    let bin = classify(&strings(&["--crate-type", "bin", "--out-dir", "target/bin"]));
    assert!(needs_libraries(&bin));
    assert_eq!(exit_code(0, 3), 3);
    assert_eq!(exit_code(2, 3), 2);
}

#[test]
fn rmeta_args_become_libraries() {
    let a = "syn=/c/nix-inc/tmp/k/rmeta/libsyn-x.rmeta";
    let linked = link_arg(a);
    assert_eq!(linked, "syn=/c/nix-inc/tmp/k/lib/lib/libsyn-x.rlib");
    assert_eq!(link_arg("-O"), "-O");
    let mut args = strings(&["--extern", a]);
    swap_rmeta_args_to_rlib(&mut args);
    assert_eq!(args, vec!["--extern".to_string(), linked]);
    assert_eq!(
        done_marks(&strings(&["--extern", a])),
        vec!["/c/nix-inc/tmp/k/done".to_string()]
    );
}

#[test]
fn missing_metadata_is_resolved() {
    let a = "syn=/c/nix-inc/tmp/k/rmeta/libsyn-x.rmeta";
    let (rmeta, so, rlib) = candidates(a).unwrap();
    let none = StrSet::new();
    let mut has_so = StrSet::new();
    has_so.insert(so.clone());
    let mut has_rmeta = StrSet::new();
    has_rmeta.insert(rmeta.clone());
    assert_eq!(resolve_arg(a, &has_rmeta), a);
    assert_eq!(resolve_arg(a, &has_so), format!("syn={}", so));
    let mut args = strings(&[a, "-O"]);
    resolve_missing_rmeta_args(&mut args, &none);
    assert_eq!(args[1], "-O");
    assert_eq!(args[0], a);
    let mut has_rlib = StrSet::new();
    has_rlib.insert(rlib.clone());
    assert_eq!(resolve_arg(a, &has_rlib), format!("syn={}", rlib));
    // A library is looked for without any of the endings; linking goes by the last one.
    let b = "x=/c/nix-inc/tmp/k/rmeta/libx.rmeta.rmeta";
    let mut has_x = StrSet::new();
    has_x.insert("/c/nix-inc/tmp/k/lib/lib/libx.so".to_string());
    assert_eq!(resolve_arg(b, &has_x), "x=/c/nix-inc/tmp/k/lib/lib/libx.so");
    assert_eq!(
        candidates(b).unwrap().2,
        "/c/nix-inc/tmp/k/lib/lib/libx.rlib"
    );
    assert_eq!(link_arg(b), "x=/c/nix-inc/tmp/k/lib/lib/libx.rmeta.rlib");
}

#[test]
fn closures_wait_for_their_marks() {
    assert_eq!(
        closure_mark("/c/nix-inc/tmp/k/lib").as_deref(),
        Some("/c/nix-inc/tmp/k/done")
    );
    assert_eq!(closure_mark("/c/artifacts/k/lib"), None);
    assert_eq!(closure_mark("/c/nix-inc/tmp/k"), None);
    assert!(relinked("liba.rlib") && relinked("liba.so") && !relinked("liba.rmeta"));
}

#[test]
fn messages_are_told_apart() {
    let meta = br#"{"artifact":"t/libx.rmeta","emit":"metadata"}"#;
    assert!(matches!(dispatch(meta), Message::Metadata(p) if p == b"t/libx.rmeta"));
    let rendered = br#"{"rendered":"hi\n"}"#;
    assert!(matches!(dispatch(rendered), Message::Rendered(t) if t == b"hi\n"));
    assert!(matches!(dispatch(b"plain"), Message::Pass));
    assert!(memchr_contains(b"abc", b"bc"));
    assert!(!memchr_contains(b"abc", b"cb"));
}

#[test]
fn shim_configuration_and_signal() {
    let cfg = Cfg::new(
        "rustc".into(),
        "/t/rmeta".into(),
        "libx.rmeta".into(),
        "1",
        "/a /b",
        "/c",
    );
    assert!(cfg.skip_link_pass);
    assert_eq!(cfg.complete_deps, vec!["/a", "/b", "/c"]);
    assert!(signals("libx.rmeta", &cfg.expected_rmeta));
    assert!(!signals("libprobe.rmeta", &cfg.expected_rmeta));
    assert_eq!(meta_ready_line("/t/rmeta"), "__META_READY__ /t/rmeta\n");
}

#[test]
fn builds_in_the_cache_of_bob_are_in_progress() {
    let a = "syn=/root/.cache/bob/tmp/abc123/rmeta/libsyn-x.rmeta";
    assert_eq!(
        rmeta_arg_tmp(a).as_deref(),
        Some("/root/.cache/bob/tmp/abc123")
    );
    assert_eq!(
        link_arg(a),
        "syn=/root/.cache/bob/tmp/abc123/lib/lib/libsyn-x.rlib"
    );
    assert_eq!(
        closure_mark("/root/.cache/bob/tmp/abc123/lib").as_deref(),
        Some("/root/.cache/bob/tmp/abc123/done")
    );
    assert_eq!(closure_mark("/root/.cache/bob/artifacts/abc123/lib"), None);
}

#[test]
fn what_stands_before_a_build_stays() {
    let a = "x=/rmeta/nix-inc/tmp/k/rmeta/libx.rmeta";
    assert_eq!(rmeta_arg_tmp(a).as_deref(), Some("/rmeta/nix-inc/tmp/k"));
    let mut args = strings(&[a, "-Copt-level=1"]);
    swap_rmeta_args_to_rlib(&mut args);
    assert_eq!(
        args,
        strings(&["x=/rmeta/nix-inc/tmp/k/lib/lib/libx.rlib", "-Copt-level=1"])
    );
    assert_eq!(
        candidates(a),
        Some((
            "/rmeta/nix-inc/tmp/k/rmeta/libx.rmeta".to_string(),
            "/rmeta/nix-inc/tmp/k/lib/lib/libx.so".to_string(),
            "/rmeta/nix-inc/tmp/k/lib/lib/libx.rlib".to_string(),
        ))
    );
    // A mark further up, or an ending inside the path, does not count.
    assert_eq!(
        link_arg("x=/a.rmeta/nix-inc/tmp/old/bob/tmp/k/rmeta/libx.rmeta"),
        "x=/a.rmeta/nix-inc/tmp/old/bob/tmp/k/lib/lib/libx.rlib"
    );
    assert_eq!(closure_mark("/nix-inc/tmp/old/bob/artifacts/k/lib"), None);
    assert_eq!(link_arg("x=/c/tmp/k/rmeta/libx.rmeta"), "x=/c/tmp/k/rmeta/libx.rmeta");
}

#[test]
fn sorting_out_twice_changes_nothing() {
    let argv = strings(&[
        "--color",
        "always",
        "-L",
        "dependency=target/deps",
        "--crate-type=rlib",
        "--out-dir",
        "target/lib",
        "--color=never",
        "--crate-type",
        "bin",
        "-O",
        "-L",
        "--color",
        "--crate-type",
    ]);
    let c = classify(&argv);
    assert_eq!(
        c.args,
        strings(&[
            "-L",
            "dependency=target/deps",
            "--out-dir",
            "target/lib",
            "-O",
            "-L",
            "--color",
        ])
    );
    assert_eq!(c.lib_types, strings(&["--crate-type=rlib"]));
    assert_eq!(c.link_types, strings(&["--crate-type", "bin"]));
    let d = classify(&c.args);
    assert_eq!(d.args, c.args);
    assert_eq!(d.dep_dirs, c.dep_dirs);
    assert_eq!(d.out_is_target_lib, c.out_is_target_lib);
    assert!(d.lib_types.is_empty() && d.link_types.is_empty());
}
