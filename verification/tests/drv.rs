use bob::drv::Derivation;

fn parse(input: &[u8]) -> Derivation {
    Derivation::parse(input).unwrap()
}

#[test]
fn parse_minimal_drv() {
    let input = br#"Derive([("out","/nix/store/aaaa-foo","","")],[],[],"x86_64-linux","/nix/store/bbbb-bash",["-e","build.sh"],[("name","foo")])"#;
    let drv = parse(input);
    assert_eq!(drv.outputs.len(), 1);
    assert_eq!(drv.outputs.get("out").unwrap().path, "/nix/store/aaaa-foo");
    assert_eq!(drv.platform, "x86_64-linux");
    assert_eq!(drv.builder, "/nix/store/bbbb-bash");
}

#[test]
fn parse_string_escapes() {
    let input = br#"Derive([("out","/nix/store/x-test","","")],[],["/nix/store/src"],"x86_64-linux","/bin/bash",[],[("script","echo \"hello\nworld\ttab\\done\"")])"#;
    let drv = parse(input);
    assert_eq!(
        drv.env.get("script").unwrap(),
        "echo \"hello\nworld\ttab\\done\""
    );
}

#[test]
fn parse_minimal_correct_format() {
    let input = br#"Derive([("out","/nix/store/x-foo","","")],[],["/nix/store/src"],"x86_64-linux","/nix/store/bash/bin/bash",["-e","script.sh"],[("name","foo"),("system","x86_64-linux")])"#;
    let drv = parse(input);
    assert_eq!(drv.outputs.len(), 1);
    assert_eq!(drv.outputs.get("out").unwrap().path, "/nix/store/x-foo");
    assert_eq!(drv.input_sources, vec!["/nix/store/src"]);
    assert_eq!(drv.platform, "x86_64-linux");
    assert_eq!(drv.builder, "/nix/store/bash/bin/bash");
    assert_eq!(drv.args, vec!["-e", "script.sh"]);
    assert_eq!(drv.env.get("name").unwrap(), "foo");
    assert_eq!(drv.env.get("system").unwrap(), "x86_64-linux");
}

#[test]
fn parse_inputs_and_accessors() {
    let input = br#"Derive([("dev","/nix/store/d","",""),("out","/nix/store/o","r:sha256","aa")],[("/nix/store/a.drv",["lib","out"]),("/nix/store/b.drv",["out"])],[],"x","/bin/sh",[],[("k","v"),("k","w")])"#;
    let drv = parse(input);
    assert_eq!(drv.input_derivations.len(), 2);
    assert_eq!(
        drv.input_derivations.get("/nix/store/a.drv").unwrap(),
        &vec!["lib".to_string(), "out".to_string()]
    );
    assert_eq!(drv.output_paths(), vec!["/nix/store/d", "/nix/store/o"]);
    assert_eq!(drv.outputs.get("out").unwrap().hash_algo, "r:sha256");
    // The later of two variables with one name counts.
    assert_eq!(drv.env_var("k"), Some("w"));
    assert_eq!(drv.env_var("none"), None);
}

#[test]
fn parse_errors_name_what_is_wrong() {
    let head = Derivation::parse(b"Drive([])").unwrap_err();
    assert!(head.contains("Derive("), "{}", head);
    let short = Derivation::parse(b"Derive([").unwrap_err();
    assert!(!short.is_empty());
    let open = Derivation::parse(br#"Derive([("out"#).unwrap_err();
    assert!(!open.is_empty());
    let byte = Derivation::parse(br#"Derive[])"#).unwrap_err();
    assert!(byte.contains("Derive"), "{}", byte);
}

#[test]
fn cut_off_files_are_refused() {
    let whole = br#"Derive([("out","/nix/store/o","","")],[("/nix/store/i.drv",["out"])],["/s"],"x","/bin/sh",["-e"],[("name","a")])"#;
    let d = parse(whole);
    for n in 0..whole.len() {
        assert!(Derivation::parse(&whole[..n]).is_err(), "{}", n);
    }
    let mut more = whole.to_vec();
    more.extend_from_slice(b"),[junk");
    let e = parse(&more);
    assert_eq!(e.env_var("name"), d.env_var("name"));
    assert_eq!(e.output_paths(), d.output_paths());
    assert_eq!(e.args, d.args);
}
