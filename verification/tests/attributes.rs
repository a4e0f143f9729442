use bob::attrs;
use bob::crate_executor;
use bob::rewrite::PathRewriter;
use bob::strmap::StrMap;

fn json(text: &str) -> serde_json::Value {
    serde_json::from_str(text).unwrap()
}

#[test]
fn attrs_attrs_sh_shapes() {
    let json = json(
        r#"{
            "name": "foo",
            "release": true,
            "jobs": 16,
            "nativeBuildInputs": ["/nix/store/a", "/nix/store/b"],
            "outputs": {"out": "/tmp/out", "lib": "/tmp/lib"},
            "env": {"SOME_INT": 1, "NIX_MAIN_PROGRAM": "foo"},
            "nested": [{"x": 1}],
            "bad-key": "nope",
            "quoted": "it's fine",
            "nullish": null
        }"#,
    );
    let sh = attrs::json_to_attrs_sh(&json);
    assert!(sh.contains("declare name='foo'\n"));
    assert!(sh.contains("declare release=1\n"));
    assert!(sh.contains("declare jobs=16\n"));
    assert!(sh.contains("declare -a nativeBuildInputs=('/nix/store/a' '/nix/store/b' )\n"));
    assert!(sh.contains("declare -A outputs=("));
    assert!(sh.contains("['out']='/tmp/out'"));
    assert!(sh.contains("['lib']='/tmp/lib'"));
    assert!(sh.contains("declare -A env=("));
    assert!(sh.contains("['SOME_INT']=1"));
    assert!(sh.contains("['NIX_MAIN_PROGRAM']='foo'"));
    assert!(!sh.contains("nested"));
    assert!(!sh.contains("bad-key"));
    assert!(sh.contains("declare quoted='it'\\''s fine'\n"));
    assert!(sh.contains("declare nullish=''\n"));
}

#[test]
fn executor_attrs_sh_shapes() {
    let json = json(
        r#"{
            "crateName": "foo",
            "release": true,
            "codegenUnits": 16,
            "nativeBuildInputs": ["/nix/store/a", "/nix/store/b"],
            "outputs": {"out": "/tmp/out", "lib": "/tmp/lib"},
            "meta": {"NIX_MAIN_PROGRAM": "foo"},
            "crateBin": [{"name": "x"}],
            "bad-key": "nope",
            "quoted": "it's fine"
        }"#,
    );
    let sh = crate_executor::json_to_attrs_sh(&json);
    assert!(sh.contains("declare -- crateName='foo'\n"));
    assert!(sh.contains("declare -- release=1\n"));
    assert!(sh.contains("declare -- codegenUnits=16\n"));
    assert!(sh.contains("declare -a nativeBuildInputs=('/nix/store/a' '/nix/store/b')\n"));
    assert!(sh.contains("declare -A outputs="));
    assert!(sh.contains("[out]='/tmp/out'"));
    assert!(sh.contains("[lib]='/tmp/lib'"));
    assert!(sh.contains("declare -A meta=([NIX_MAIN_PROGRAM]='foo')\n"));
    assert!(!sh.contains("crateBin"));
    assert!(!sh.contains("bad-key"));
    assert!(sh.contains("declare -- quoted='it'\\''s fine'\n"));
}

#[test]
fn attrs_bash_ident_validation() {
    assert!(attrs::is_valid_bash_ident("foo"));
    assert!(attrs::is_valid_bash_ident("_foo123"));
    assert!(attrs::is_valid_bash_ident("__json"));
    assert!(!attrs::is_valid_bash_ident("0foo"));
    assert!(!attrs::is_valid_bash_ident("foo-bar"));
    assert!(!attrs::is_valid_bash_ident(""));
}

#[test]
fn executor_bash_ident_validation() {
    assert!(attrs::is_valid_bash_ident("foo"));
    assert!(attrs::is_valid_bash_ident("_foo123"));
    assert!(attrs::is_valid_bash_ident("__json"));
    assert!(!attrs::is_valid_bash_ident("0foo"));
    assert!(!attrs::is_valid_bash_ident("foo-bar"));
    assert!(!attrs::is_valid_bash_ident(""));
}

#[test]
fn whole_declarations_are_exact() {
    let v = json(r#"{"b":[],"a":-3,"c":{"k":true,"j":null},"big":18446744073709551615}"#);
    assert_eq!(
        attrs::json_to_attrs_sh(&v),
        "declare a=-3\ndeclare -a b=( )\ndeclare big=18446744073709551615\ndeclare -A c=(['j']='' ['k']=1 )\n"
    );
    assert_eq!(attrs::json_to_attrs_sh(&json("[1]")), "");
    // A number that is no integer is declared for a crate alone.
    let f = json(r#"{"x":1.5}"#);
    assert_eq!(attrs::json_to_attrs_sh(&f), "");
    assert_eq!(crate_executor::json_to_attrs_sh(&f), "declare -- x=1.5\n");
}

#[test]
fn quoting_for_the_shell() {
    assert_eq!(attrs::sh_escape("it's"), "'it'\\''s'");
    assert_eq!(attrs::sh_escape(""), "''");
    assert_eq!(
        attrs::escape_for_dollar_single_quote("a\\b'c\nd\te\rf"),
        "a\\\\b\\'c\\nd\\te\\rf"
    );
    assert_eq!(attrs::simple_to_sh(&json("\"x\"")).as_deref(), Some("'x'"));
    assert_eq!(attrs::simple_to_sh(&json("[]")), None);
}

#[test]
fn structured_attrs_are_redirected() {
    let mut rw = PathRewriter::new();
    rw.add("/nix/store/dep".into(), "/cache/dep".into());
    let mut outs: StrMap<String> = StrMap::new();
    outs.insert("out".into(), "/tmp/k/out".into());
    let text = r#"{"outputs":["out"],"src":"/nix/store/src","deps":["/nix/store/dep/lib",1],"o":{"p":"/nix/store/dep"},"n":1.5}"#;
    let r = attrs::rewrite_structured_attrs_json(text, &outs, &rw, Some("/live"));
    assert_eq!(
        json(&r),
        json(
            r#"{"outputs":{"out":"/tmp/k/out"},"src":"/live","deps":["/cache/dep/lib",1],"o":{"p":"/cache/dep"},"n":1.5}"#
        )
    );
    let kept = attrs::rewrite_structured_attrs_json(r#"{"src":"s"}"#, &outs, &rw, None);
    assert_eq!(json(&kept), json(r#"{"outputs":{"out":"/tmp/k/out"},"src":"s"}"#));
    // What is no JSON stays.
    assert_eq!(
        attrs::rewrite_structured_attrs_json("{nope", &outs, &rw, None),
        "{nope"
    );
    // What is no object is written again.
    assert_eq!(
        attrs::rewrite_structured_attrs_json("[ 1 ]", &outs, &rw, None),
        "[1]"
    );
}

#[test]
fn arrays_in_arrays_are_rewritten() {
    let mut rw = PathRewriter::new();
    rw.add("/nix/store/dep".into(), "/c/artifacts/k".into());
    let none: StrMap<String> = StrMap::new();
    let r = attrs::rewrite_structured_attrs_json(
        r#"{"a":[["/nix/store/dep/lib",[{"b":["/nix/store/dep"]}]],1]}"#,
        &none,
        &rw,
        None,
    );
    assert_eq!(
        r,
        r#"{"a":[["/c/artifacts/k/lib",[{"b":["/c/artifacts/k"]}]],1],"outputs":{}}"#
    );
}
