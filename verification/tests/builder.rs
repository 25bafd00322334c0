use tolkien::definitions::Param;
use tolkien::definitions::Primitive;
use tolkien::definitions::ScopeType;
use tolkien::definitions::Type;
use tolkien::error::ParseError;
use tolkien::params::parse_parameters;
use tolkien::tokenize::tokenize;
use tolkien::tokenize::TokenTree;

#[test]
fn class_with_a_method_is_indexed() {
    let tree = tokenize(String::from("class Foo\n  def bar(x, y: 1)\n  end\nend")).unwrap();
    assert_eq!(tree.cursor(), tree.root());
    assert_eq!(tree.len(), 2);

    let root = tree.scope(tree.root()).unwrap();
    assert_eq!(root.name, None);
    assert_eq!(root.scope_type, ScopeType::Unset);
    assert_eq!(root.children.len(), 1);
    assert_eq!(root.funs.len(), 0);

    let foo = tree.scope(*root.children.get("Foo").unwrap()).unwrap();
    assert_eq!(foo.name, Some(String::from("Foo")));
    assert_eq!(foo.scope_type, ScopeType::Class);
    assert_eq!(foo.parent, Some(tree.root()));
    assert_eq!(foo.children.len(), 0);
    assert_eq!(foo.funs.len(), 1);

    let bar = foo.funs.get("bar").unwrap();
    assert_eq!(bar.name, Some(String::from("bar")));
    assert_eq!(bar.returns, Primitive::Unknown);
    assert_eq!(bar.pos_params, vec![Param { t: Type::Unknown, default: None }]);
    assert_eq!(bar.key_params.len(), 1);
    assert_eq!(
        bar.key_params.get("y"),
        Some(&Param { t: Type::Unknown, default: Some(Type::Primitive(Primitive::Integer)) })
    );
}

#[test]
fn opening_a_qualified_name_twice_makes_each_scope_once() {
    let mut tree = TokenTree::new();
    assert_eq!(tree.add_namespace(String::from("A")), Ok(()));
    assert_eq!(tree.close_scope(), Ok(()));
    assert_eq!(tree.add_namespace(String::from("A::B")), Ok(()));
    let b = tree.cursor();
    assert_eq!(tree.len(), 3);
    assert_eq!(tree.close_scope(), Ok(()));
    assert_eq!(tree.close_scope(), Ok(()));
    assert_eq!(tree.cursor(), tree.root());

    assert_eq!(tree.add_namespace(String::from("A::B")), Ok(()));
    assert_eq!(tree.cursor(), b);
    assert_eq!(tree.len(), 3);
    let root = tree.scope(tree.root()).unwrap();
    assert_eq!(root.children.len(), 1);
    let a = tree.scope(*root.children.get("A").unwrap()).unwrap();
    assert_eq!(a.children.len(), 1);
    assert_eq!(a.children.get("B"), Some(&b));
}

#[test]
fn positional_parameters_come_first() {
    let (positional, keyword) = parse_parameters(String::from("(a, b: 1, c: 2)")).unwrap();
    assert_eq!(positional.len(), 1);
    assert_eq!(keyword.len(), 2);
    assert_eq!(
        keyword.get("b"),
        Some(&Param { t: Type::Unknown, default: Some(Type::Primitive(Primitive::Integer)) })
    );
    assert_eq!(
        keyword.get("c"),
        Some(&Param { t: Type::Unknown, default: Some(Type::Primitive(Primitive::Integer)) })
    );

    assert_eq!(
        parse_parameters(String::from("(a: 1, b)")),
        Err(ParseError::ParameterOrderViolation)
    );

    let mut tree = TokenTree::new();
    assert_eq!(
        tree.add_function(String::from("f"), Some(String::from("(a, b: 1, c: 2)"))),
        Ok(())
    );
    assert_eq!(
        tree.add_function(String::from("g"), Some(String::from("(a: 1, b)"))),
        Err(ParseError::ParameterOrderViolation)
    );
    let root = tree.scope(tree.root()).unwrap();
    assert_eq!(root.funs.len(), 1);
    assert!(root.funs.contains_key("f"));
    assert!(!root.funs.contains_key("g"));
}

#[test]
fn closing_the_root_is_unmatched() {
    let mut tree = TokenTree::new();
    assert_eq!(tree.close_scope(), Err(ParseError::UnmatchedClose));
    assert_eq!(tree.cursor(), tree.root());
    assert_eq!(tokenize(String::from("end")), Err(ParseError::UnmatchedClose));
    assert_eq!(tokenize(String::from("class A\nend\nend")), Err(ParseError::UnmatchedClose));
}

#[test]
fn undefined_namespace_leaves_the_cursor() {
    let mut tree = TokenTree::new();
    assert_eq!(
        tree.add_namespace(String::from("Foo::Bar")),
        Err(ParseError::UndefinedNamespaceSegment)
    );
    assert_eq!(tree.cursor(), tree.root());
    assert_eq!(tree.len(), 1);

    assert_eq!(tree.add_namespace(String::from("A")), Ok(()));
    assert_eq!(tree.add_namespace(String::from("B")), Ok(()));
    let b = tree.cursor();
    assert_eq!(tree.close_scope(), Ok(()));
    assert_eq!(
        tree.add_namespace(String::from("B::C::D")),
        Err(ParseError::UndefinedNamespaceSegment)
    );
    assert_eq!(tree.scope(tree.cursor()).unwrap().name, Some(String::from("A")));
    assert_eq!(tree.len(), 3);
    assert_eq!(tree.scope(b).unwrap().children.len(), 0);
}

#[test]
fn matched_pairs_return_to_the_root() {
    let source = "class A\n  class B\n    def f(x)\n    end\n  end\n  module C\n  end\nend\nclass D\nend\n";
    let tree = tokenize(String::from(source)).unwrap();
    assert_eq!(tree.cursor(), tree.root());
    assert_eq!(tree.len(), 1 + 4);

    let reopened = "class A\nend\nclass A\n  class B\n  end\nend\nclass A\n  class B\n  end\nend\n";
    let tree = tokenize(String::from(reopened)).unwrap();
    assert_eq!(tree.cursor(), tree.root());
    assert_eq!(tree.len(), 1 + 2);
}

#[test]
fn descending_needs_a_scope_that_is_there() {
    let mut tree = TokenTree::new();
    assert_eq!(tree.descend_scope("foo"), Err(ParseError::MalformedConstantName));
    assert_eq!(tree.descend_scope(""), Err(ParseError::MalformedConstantName));
    assert_eq!(tree.descend_scope("Foo"), Err(ParseError::UndefinedNamespaceSegment));
    assert_eq!(tree.cursor(), tree.root());

    let foo = tree.descend_scope_create("Foo").unwrap();
    assert_eq!(tree.cursor(), tree.root());
    assert_eq!(tree.descend_scope_create("Foo"), Ok(foo));
    assert_eq!(tree.len(), 2);
    assert_eq!(tree.descend_scope_create("foo"), Err(ParseError::MalformedConstantName));
    assert_eq!(tree.len(), 2);
    assert_eq!(tree.descend_scope("Foo"), Ok(()));
    assert_eq!(tree.cursor(), foo);
    assert_eq!(tree.scope(foo).unwrap().scope_type, ScopeType::Class);
    assert_eq!(tree.scope(foo).unwrap().parent, Some(tree.root()));
    assert!(tree.scope(tree.len()).is_none());
}

#[test]
fn qualified_names_are_split_at_double_colons() {
    let mut tree = TokenTree::new();
    assert_eq!(tree.add_namespace(String::from("")), Err(ParseError::MalformedConstantName));
    assert_eq!(tree.add_namespace(String::from("foo::Bar")), Err(ParseError::MalformedConstantName));
    assert_eq!(tree.add_namespace(String::from("A")), Ok(()));
    assert_eq!(tree.close_scope(), Ok(()));
    assert_eq!(tree.add_namespace(String::from("A::")), Err(ParseError::MalformedConstantName));
    assert_eq!(tree.add_namespace(String::from("A:::B")), Err(ParseError::MalformedConstantName));
    assert_eq!(tree.add_namespace(String::from("A::b")), Err(ParseError::MalformedConstantName));
    assert_eq!(tree.add_namespace(String::from("::A")), Err(ParseError::MalformedConstantName));
    assert_eq!(tree.cursor(), tree.root());
    assert_eq!(tree.len(), 2);
    assert_eq!(tree.add_namespace(String::from("A:B")), Ok(()));
    assert_eq!(tree.scope(tree.cursor()).unwrap().name, Some(String::from("A:B")));
    assert_eq!(tree.close_scope(), Ok(()));
    assert_eq!(tree.add_namespace(String::from("A::B::C")), Err(ParseError::UndefinedNamespaceSegment));
    assert_eq!(tree.add_namespace(String::from("A::B")), Ok(()));
    assert_eq!(tree.close_scope(), Ok(()));
    assert_eq!(tree.close_scope(), Ok(()));
    assert_eq!(tree.add_namespace(String::from("A::B::C")), Ok(()));
    assert_eq!(tree.len(), 5);
    let c = tree.scope(tree.cursor()).unwrap();
    assert_eq!(c.name, Some(String::from("C")));
    let b = tree.scope(c.parent.unwrap()).unwrap();
    assert_eq!(b.name, Some(String::from("B")));
    assert_eq!(tree.scope(b.parent.unwrap()).unwrap().name, Some(String::from("A")));
}

#[test]
fn a_function_of_the_same_name_gives_way() {
    let mut tree = TokenTree::new();
    assert_eq!(tree.add_function(String::from("f"), Some(String::from("(a, b)"))), Ok(()));
    assert_eq!(tree.add_function(String::from("g"), None), Ok(()));
    assert_eq!(tree.add_function(String::from("f"), Some(String::from("(k: nil)"))), Ok(()));
    assert_eq!(tree.cursor(), tree.root());
    let root = tree.scope(tree.root()).unwrap();
    assert_eq!(root.funs.len(), 2);
    let f = root.funs.get("f").unwrap();
    assert_eq!(f.pos_params.len(), 0);
    assert_eq!(
        f.key_params.get("k"),
        Some(&Param { t: Type::Unknown, default: Some(Type::Primitive(Primitive::Nil)) })
    );
    assert_eq!(f.scope, tree.root());
    assert_eq!(root.funs.entry(0).unwrap().0, "f");
    assert_eq!(root.funs.entry(1).unwrap().0, "g");
    let g = root.funs.get("g").unwrap();
    assert_eq!(g.pos_params.len(), 0);
    assert!(g.key_params.is_empty());
}

#[test]
fn parameter_lists() {
    let counts = |text: &str| {
        parse_parameters(String::from(text)).map(|(positional, keyword)| (positional.len(), keyword.len()))
    };
    assert_eq!(counts(""), Ok((0, 0)));
    assert_eq!(counts("()"), Ok((0, 0)));
    assert_eq!(counts("(a)"), Ok((1, 0)));
    assert_eq!(counts("a, b)"), Ok((2, 0)));
    assert_eq!(counts("  ( a, b, c )"), Ok((3, 0)));
    assert_eq!(counts("(a, , b,)"), Ok((2, 0)));
    assert_eq!(counts("(a, b) c, d"), Ok((2, 0)));
    assert_eq!(counts("(a, b"), Err(ParseError::UnexpectedEndOfInput));
    assert_eq!(counts("(a, k: 1"), Ok((1, 1)));
    assert_eq!(counts("(a, k: 1, b)"), Err(ParseError::ParameterOrderViolation));
    assert_eq!(counts("(k: 1, k: 2)"), Ok((0, 1)));
    assert_eq!(counts("(a: :sym)"), Ok((0, 1)));
    assert_eq!(counts("(a: \"x, y)\", b: [1, 2], c: {d: 1})"), Ok((0, 3)));

    let (_, keyword) = parse_parameters(String::from("(a:, b: 2.5, c: foo, d: \"s\", e:)")).unwrap();
    assert_eq!(keyword.get("a"), Some(&Param { t: Type::Unknown, default: None }));
    assert_eq!(
        keyword.get("b"),
        Some(&Param { t: Type::Unknown, default: Some(Type::Primitive(Primitive::Float)) })
    );
    assert_eq!(keyword.get("c"), Some(&Param { t: Type::Unknown, default: Some(Type::Unknown) }));
    assert_eq!(
        keyword.get("d"),
        Some(&Param { t: Type::Unknown, default: Some(Type::Primitive(Primitive::String)) })
    );
    assert_eq!(keyword.get("e"), Some(&Param { t: Type::Unknown, default: None }));
    assert_eq!(keyword.get("f"), None);

    let (_, keyword) = parse_parameters(String::from("(k: 1, k: nil)")).unwrap();
    assert_eq!(
        keyword.get("k"),
        Some(&Param { t: Type::Unknown, default: Some(Type::Primitive(Primitive::Nil)) })
    );
}

#[test]
fn every_error_ends_the_build() {
    let error = |source: &str| tokenize(String::from(source)).unwrap_err();
    assert_eq!(error("class foo\nend"), ParseError::MalformedConstantName);
    assert_eq!(error("class A::B\nend"), ParseError::UndefinedNamespaceSegment);
    assert_eq!(error("class A\nend\nend"), ParseError::UnmatchedClose);
    assert_eq!(error("def (x)\nend"), ParseError::MissingFunctionName);
    assert_eq!(error("def f(a: 1, b)\nend"), ParseError::ParameterOrderViolation);
    assert_eq!(error("class A\n  def f(a, b"), ParseError::UnexpectedEndOfInput);
    assert_eq!(error("class foo\nend\nend"), ParseError::MalformedConstantName);
    assert_eq!(error("def f(a: 1, b)\nclass foo"), ParseError::ParameterOrderViolation);
}

#[test]
fn what_stays_open_is_no_error() {
    let tree = tokenize(String::from("class A\n  class B\n  def f(x)\n")).unwrap();
    assert_eq!(tree.len(), 3);
    assert_eq!(tree.scope(tree.cursor()).unwrap().name, Some(String::from("B")));
    assert!(tree.scope(tree.cursor()).unwrap().funs.contains_key("f"));

    let tree = tokenize(String::new()).unwrap();
    assert_eq!(tree, TokenTree::new());
}

#[test]
fn the_end_of_a_function_leaves_the_scope() {
    let source = "def f(x)\nend\nclass A\n  def g()\n  end\n  def h\n    g(1)\n  end\n";
    let tree = tokenize(String::from(source)).unwrap();
    assert_eq!(tree.len(), 2);
    let root = tree.scope(tree.root()).unwrap();
    assert!(root.funs.contains_key("f"));
    let a = tree.scope(tree.cursor()).unwrap();
    assert_eq!(a.name, Some(String::from("A")));
    assert!(a.funs.contains_key("g"));
    assert!(a.funs.contains_key("h"));
}

#[test]
fn a_qualified_opening_closes_one_level() {
    let tree = tokenize(String::from("class A\nend\nclass A::B\nend\n")).unwrap();
    assert_eq!(tree.len(), 3);
    assert_eq!(tree.scope(tree.cursor()).unwrap().name, Some(String::from("A")));
}
