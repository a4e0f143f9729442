use bob::path;
use bob::strmap::{StrMap, StrSet};
use bob::text;

#[test]
fn paths_join_and_name() {
    assert_eq!(path::join("/a", "b"), "/a/b");
    assert_eq!(path::join("/a/", "b"), "/a/b");
    assert_eq!(path::join("/a", "/b"), "/b");
    assert_eq!(path::join("", "b"), "b");
    assert_eq!(path::file_name("/a/b.c").as_deref(), Some("b.c"));
    assert_eq!(path::file_name("/a/b/").as_deref(), Some("b"));
    assert_eq!(path::file_name("/a/.."), None);
    assert_eq!(path::file_name("/"), None);
}

#[test]
fn paths_sort_as_the_standard_library_sorts_them() {
    let items = ["/", "/a", "/a.b", "/a/b", "/a/../b", "a", "./a", "../a", "a//b", "a/./b", "a/!"];
    for x in items {
        for y in items {
            assert_eq!(
                path::sort_key(x).cmp(&path::sort_key(y)),
                std::path::Path::new(x).cmp(std::path::Path::new(y)),
                "{} {}",
                x,
                y
            );
        }
    }
}

#[test]
fn texts_behave_as_the_standard_library() {
    let s = " a b\u{3000}c\r\n\nd ";
    assert_eq!(text::trim(s), s.trim());
    assert_eq!(text::trim_start(s), s.trim_start());
    assert_eq!(
        text::split_whitespace(s),
        s.split_whitespace().map(|w| w.to_string()).collect::<Vec<String>>()
    );
    assert_eq!(
        text::lines(s),
        s.lines().map(|w| w.to_string()).collect::<Vec<String>>()
    );
    assert_eq!(text::replace("aaa", "aa", "b"), "aaa".replace("aa", "b"));
    assert_eq!(text::replace("ab", "", "-"), "ab".replace("", "-"));
    assert_eq!(text::i64_text(i64::MIN), i64::MIN.to_string());
    assert_eq!(text::u64_text(u64::MAX), u64::MAX.to_string());
    assert_eq!(text::strip_prefix("abc", "ab").as_deref(), Some("c"));
    assert_eq!(text::strip_suffix("abc", "bd"), None);
    assert_eq!(
        text::split_once("a=b=c", '='),
        Some(("a".to_string(), "b=c".to_string()))
    );
    assert!(text::contains("héllo", "él"));
}

#[test]
fn maps_keep_their_keys_in_order() {
    let mut m: StrMap<String> = StrMap::new();
    for k in ["b", "é", "a", "", "b"] {
        m.insert(k.to_string(), format!("<{}>", k));
    }
    assert_eq!(m.keys(), vec!["", "a", "b", "é"]);
    assert_eq!(m.position("b"), Some(2));
    assert_eq!(m.get("é").unwrap(), "<é>");
    assert_eq!(m.pop_last().unwrap().0, "é");
    let mut s = StrSet::new();
    assert!(s.insert("x".into()));
    assert!(!s.insert("x".into()));
    assert_eq!(s.items(), vec!["x"]);
}
