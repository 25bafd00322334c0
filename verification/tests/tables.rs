use tolkien::definitions::Scope;
use tolkien::definitions::ScopeType;
use tolkien::names::NameMap;
use tolkien::text::chars_of;
use tolkien::text::contains_char;
use tolkien::text::first_char;
use tolkien::text::split_segments;
use tolkien::text::starts_uppercase;
use tolkien::text::string_of;
use tolkien::tokenize::TokenTree;

#[test]
fn a_table_keeps_one_value_for_a_name() {
    let mut table: NameMap<usize> = NameMap::new();
    assert!(table.is_empty());
    assert_eq!(table.get("a"), None);
    table.insert(String::from("a"), 1);
    table.insert(String::from("b"), 2);
    table.insert(String::from("a"), 3);
    assert_eq!(table.len(), 2);
    assert!(!table.is_empty());
    assert_eq!(table.get("a"), Some(&3));
    assert_eq!(table.get("b"), Some(&2));
    assert_eq!(table.get("c"), None);
    assert!(table.contains_key("b"));
    assert!(!table.contains_key(""));
    assert_eq!(table.entry(0), Some(("a", &3)));
    assert_eq!(table.entry(1), Some(("b", &2)));
    assert_eq!(table.entry(2), None);
}

#[test]
fn a_new_scope_is_empty() {
    let scope = Scope::new(Some("Foo"), Some(3));
    assert_eq!(scope.name, Some(String::from("Foo")));
    assert_eq!(scope.parent, Some(3));
    assert_eq!(scope.scope_type, ScopeType::Unset);
    assert!(scope.children.is_empty());
    assert!(scope.funs.is_empty());
    assert!(scope.vars.is_empty());

    let root = Scope::default();
    assert_eq!(root, Scope::new(None, None));
    assert_eq!(ScopeType::default(), ScopeType::Unset);
}

#[test]
fn segments_of_qualified_names() {
    let split = |name: &str| split_segments(name);
    assert_eq!(split("A"), vec!["A"]);
    assert_eq!(split("A::B::C"), vec!["A", "B", "C"]);
    assert_eq!(split(""), vec![""]);
    assert_eq!(split("::"), vec!["", ""]);
    assert_eq!(split("A::"), vec!["A", ""]);
    assert_eq!(split("::A"), vec!["", "A"]);
    assert_eq!(split("A:::B"), vec!["A", ":B"]);
    assert_eq!(split("A::::B"), vec!["A", "", "B"]);
    assert_eq!(split("A:B"), vec!["A:B"]);
    assert_eq!(split("A:"), vec!["A:"]);
    for name in ["A", "A::B::C", "", "::", "A::", "::A", "A:::B", "A::::B", "A:B", ":"] {
        let expected: Vec<String> = name.split("::").map(String::from).collect();
        assert_eq!(split(name), expected, "{}", name);
    }
}

#[test]
fn helpers_on_text() {
    assert_eq!(chars_of("a\u{e9}b"), vec!['a', '\u{e9}', 'b']);
    assert_eq!(chars_of(""), Vec::<char>::new());
    assert_eq!(string_of(&vec!['a', 'b', 'c', 'd'], 1, 3), "bc");
    assert_eq!(string_of(&vec!['a', 'b'], 2, 2), "");
    assert_eq!(first_char("xy"), Some('x'));
    assert_eq!(first_char(""), None);
    assert!(contains_char(&[':', ','], ','));
    assert!(!contains_char(&[':', ','], ')'));
    assert!(!contains_char(&[], ')'));
    assert_eq!(TokenTree::PARAM_DELIM, [':', ',', ')']);
    assert!(starts_uppercase("Zed"));
    assert!(!starts_uppercase("zed"));
    assert!(!starts_uppercase("_Z"));
}
