use bob::rewrite::PathRewriter;
use bob::strmap::StrMap;

#[test]
fn rewrite_store_paths() {
    let mut rw = PathRewriter::new();
    rw.add(
        "/nix/store/aaaa-serde-1.0.0-lib".into(),
        "/home/user/.cache/nib/artifacts/serde-1.0.0".into(),
    );
    rw.add(
        "/nix/store/bbbb-hello-0.1.0".into(),
        "/home/user/.cache/nib/out/hello-0.1.0".into(),
    );

    let input = "-L /nix/store/aaaa-serde-1.0.0-lib/lib";
    assert_eq!(
        rw.rewrite(input),
        "-L /home/user/.cache/nib/artifacts/serde-1.0.0/lib"
    );

    let toolchain = "/nix/store/cccc-gcc-15.2.0/bin/cc";
    assert_eq!(rw.rewrite(toolchain), toolchain);
}

#[test]
fn rewrite_env_map() {
    let mut rw = PathRewriter::new();
    rw.add("/nix/store/xxxx-out".into(), "/tmp/cache/out".into());

    let mut env: StrMap<String> = StrMap::new();
    env.insert("out".into(), "/nix/store/xxxx-out".into());
    env.insert("installPhase".into(), "cp -r target/lib $out/lib".into());

    let rewritten = rw.rewrite_env(&env);
    assert_eq!(rewritten.get("out").unwrap(), "/tmp/cache/out");
    assert_eq!(
        rewritten.get("installPhase").unwrap(),
        "cp -r target/lib $out/lib"
    );
}

#[test]
fn rewrites_apply_in_order() {
    let mut rw = PathRewriter::new();
    rw.add("a".into(), "b".into());
    rw.add("b".into(), "cc".into());
    assert_eq!(rw.rewrite("aab"), "cccccc");
    assert_eq!(rw.rewrite(""), "");
}
