use tolkien::definitions::Primitive;
use tolkien::definitions::Type;
use tolkien::error::ParseError;
use tolkien::reader::Expression;
use tolkien::reader::FileReader;
use tolkien::reader::TolkienChar;
use tolkien::reader::TolkienChars;
use tolkien::reader::TolkienOptString;
use tolkien::reader::TolkienString;

/// The sources that the tests read, by the path they would have on disk.
fn asset(path: &str) -> String {
    match path {
        "assets/test.rb" => String::from(
            "class Foo\n  # a greeter\n  def bar(x, y: 1)\n  end\nend\n",
        ),
        _ => panic!("no such asset: {}", path),
    }
}

fn reader_of(text: &str) -> FileReader {
    FileReader::from(String::from(text))
}

#[test]
fn reader() {
    let mut stream = FileReader::from(asset("assets/test.rb"));
    let word = stream.next_word().unwrap();

    assert_eq!("class", word.as_str());
}

#[test]
fn expressions_of_a_class_with_a_method() {
    let mut stream = FileReader::from(asset("assets/test.rb"));
    assert_eq!(stream.next_expression(), Ok(Some(Expression::ClassOpen(String::from("Foo")))));
    assert_eq!(stream.depth(), 1);
    assert_eq!(
        stream.next_expression(),
        Ok(Some(Expression::FnDef(String::from("bar"), Some(String::from("(x, y: 1)")))))
    );
    assert_eq!(stream.depth(), 2);
    assert_eq!(stream.next_expression(), Ok(Some(Expression::Close)));
    assert_eq!(stream.next_expression(), Ok(Some(Expression::Close)));
    assert_eq!(stream.depth(), 0);
    assert_eq!(stream.next_expression(), Ok(None));
    assert_eq!(stream.remaining(), 0);
}

#[test]
fn bare_end_is_unmatched() {
    let mut stream = reader_of("end");
    assert_eq!(stream.next_expression(), Err(ParseError::UnmatchedClose));
    let mut stream = reader_of("class A\nend\nend");
    assert_eq!(stream.next_expression(), Ok(Some(Expression::ClassOpen(String::from("A")))));
    assert_eq!(stream.next_expression(), Ok(Some(Expression::Close)));
    assert_eq!(stream.next_expression(), Err(ParseError::UnmatchedClose));
}

#[test]
fn peek_leaves_and_next_takes() {
    let mut stream = reader_of("ab");
    assert_eq!(stream.remaining(), 2);
    assert_eq!(stream.peek(), Some(&'a'));
    assert_eq!(stream.peek(), Some(&'a'));
    assert_eq!(stream.next(), Some('a'));
    assert_eq!(stream.next(), Some('b'));
    assert_eq!(stream.remaining(), 0);
    assert_eq!(stream.peek(), None);
    assert_eq!(stream.next(), None);
}

#[test]
fn blanks_are_space_and_line_feed() {
    assert!(' '.blank());
    assert!('\n'.blank());
    assert!(!'\t'.blank());
    assert!(!'\r'.blank());
    assert!(!'a'.blank());

    let mut stream = reader_of(" \n \n x y");
    stream.skip_blank();
    assert_eq!(stream.peek(), Some(&'x'));
    stream.skip_blank();
    assert_eq!(stream.peek(), Some(&'x'));

    let mut stream = reader_of("\tx");
    stream.skip_blank();
    assert_eq!(stream.peek(), Some(&'\t'));
}

#[test]
fn words_end_at_blanks() {
    let mut stream = reader_of("  one\ntwo(3)  ");
    assert_eq!(stream.next_word(), Some(String::from("one")));
    assert_eq!(stream.peek(), Some(&'\n'));
    assert_eq!(stream.next_word(), Some(String::from("two(3)")));
    assert_eq!(stream.next_word(), None);
    assert_eq!(stream.remaining(), 0);
    assert_eq!(reader_of("").next_word(), None);
}

#[test]
fn identifiers_end_at_punctuation() {
    let mut stream = reader_of(" foo_1(bar");
    assert_eq!(stream.next_alphanumeric_word(), Some(String::from("foo_1")));
    assert_eq!(stream.peek(), Some(&'('));
    assert_eq!(stream.next_alphanumeric_word(), Some(String::new()));
    assert_eq!(stream.peek(), Some(&'('));
    assert_eq!(reader_of("  ").next_alphanumeric_word(), None);
    assert_eq!(reader_of("caf\u{e9}!").next_alphanumeric_word(), Some(String::from("caf\u{e9}")));
}

#[test]
fn a_word_is_expected() {
    assert_eq!(reader_of(" x ").next_word_expected(), Ok(String::from("x")));
    assert_eq!(reader_of(" \n").next_word_expected(), Err(ParseError::UnexpectedEndOfInput));
}

#[test]
fn reading_until_a_delimiter() {
    let mut stream = reader_of("  a b,c");
    assert_eq!(stream.read_until(&[',', ';']), (String::from("a b"), Some(',')));
    assert_eq!(stream.peek(), Some(&','));
    assert_eq!(stream.read_until(&[',', ';']), (String::new(), Some(',')));
    assert_eq!(stream.next(), Some(','));
    assert_eq!(stream.read_until(&[',', ';']), (String::from("c"), None));
    assert_eq!(stream.remaining(), 0);
}

#[test]
fn reading_until_a_delimiter_or_a_blank() {
    let mut stream = reader_of(" ab cd,ef");
    assert_eq!(stream.read_until_delim(&[',']), (String::from("ab"), None));
    assert_eq!(stream.peek(), Some(&' '));
    assert_eq!(stream.read_until_delim(&[',']), (String::from("cd"), Some(',')));
    assert_eq!(stream.peek(), Some(&','));
    assert_eq!(stream.next(), Some(','));
    assert_eq!(stream.read_until_delim(&[',']), (String::from("ef"), None));

    let mut stream = reader_of("ab cd");
    assert_eq!(stream.read_until_delim(&[' ']), (String::from("ab"), None));
}

#[test]
fn reading_through_a_delimiter() {
    let mut stream = reader_of("ab)cd");
    assert_eq!(stream.read_until_delim_inclusive(&[')']), String::from("ab)"));
    assert_eq!(stream.peek(), Some(&'c'));

    let mut stream = reader_of("ab cd)");
    assert_eq!(stream.read_until_delim_inclusive(&[')']), String::from("ab"));
    assert_eq!(stream.peek(), Some(&' '));
    assert_eq!(stream.read_until_delim_inclusive(&[')']), String::from("cd)"));
    assert_eq!(stream.read_until_delim_inclusive(&[')']), String::new());
}

#[test]
fn lines_end_at_line_feed_or_semicolon() {
    let mut stream = reader_of("a b;c\n\nd");
    assert_eq!(stream.next_line(), Some(String::from("a b")));
    assert_eq!(stream.next_line(), Some(String::from("c")));
    assert_eq!(stream.next_line(), Some(String::new()));
    assert_eq!(stream.next_line(), Some(String::from("d")));
    assert_eq!(stream.next_line(), None);
    assert_eq!(reader_of("").next_line(), None);

    let mut stream = reader_of("abc\ndef");
    stream.to_next_line();
    assert_eq!(stream.peek(), Some(&'\n'));
    stream.to_next_line();
    assert_eq!(stream.peek(), Some(&'\n'));
    let mut stream = reader_of("abc");
    stream.to_next_line();
    assert_eq!(stream.peek(), None);
}

#[test]
fn constant_names_start_uppercase() {
    let mut stream = reader_of(" Foo::Bar baz");
    assert_eq!(stream.next_constant_name(), Ok(String::from("Foo::Bar")));
    assert_eq!(stream.next_constant_name(), Err(ParseError::MalformedConstantName));
    assert_eq!(stream.next_constant_name(), Err(ParseError::MalformedConstantName));
    assert_eq!(reader_of("\u{c9}cole").next_constant_name(), Err(ParseError::MalformedConstantName));
}

#[test]
fn function_names_and_parameter_lists() {
    let mut stream = reader_of(" bar(x, y: 1) rest");
    assert_eq!(stream.next_function_name(), Ok(String::from("bar")));
    assert_eq!(stream.peek(), Some(&'('));
    assert_eq!(stream.next_function_parameters(), Ok(Some(String::from("(x, y: 1)"))));
    assert_eq!(stream.peek(), Some(&' '));

    assert_eq!(reader_of("(x)").next_function_name(), Err(ParseError::MissingFunctionName));
    assert_eq!(reader_of("").next_function_name(), Err(ParseError::MissingFunctionName));
    assert_eq!(reader_of("  \n").next_function_parameters(), Ok(None));
    assert_eq!(reader_of(")").next_function_parameters(), Ok(None));
    assert_eq!(reader_of("()").next_function_parameters(), Ok(Some(String::from("()"))));
    let mut stream = reader_of("\n  x)");
    assert_eq!(stream.next_function_parameters(), Ok(None));
    assert_eq!(stream.peek(), Some(&'x'));
    let mut stream = reader_of(" (a,\n b) c");
    assert_eq!(stream.next_function_parameters(), Ok(Some(String::from("(a,\n b)"))));
    assert_eq!(stream.peek(), Some(&' '));
    assert_eq!(
        reader_of("(x, y").next_function_parameters(),
        Err(ParseError::UnexpectedEndOfInput)
    );
}

#[test]
fn expressions_by_keyword() {
    let mut stream = reader_of("module M\n  x = 1\nend\n");
    assert_eq!(stream.next_expression(), Ok(Some(Expression::ClassOpen(String::from("M")))));
    assert_eq!(stream.next_expression(), Ok(Some(Expression::Unknown)));
    assert_eq!(stream.peek(), Some(&' '));
    assert_eq!(stream.next_expression(), Ok(Some(Expression::Unknown)));
    assert_eq!(stream.next_expression(), Ok(Some(Expression::Unknown)));
    assert_eq!(stream.next_expression(), Ok(Some(Expression::Close)));
    assert_eq!(stream.next_expression(), Ok(None));

    assert_eq!(reader_of("class foo").next_expression(), Err(ParseError::MalformedConstantName));
    assert_eq!(reader_of("class").next_expression(), Err(ParseError::MalformedConstantName));
    assert_eq!(reader_of("def (x)").next_expression(), Err(ParseError::MissingFunctionName));
    assert_eq!(reader_of("def f(x").next_expression(), Err(ParseError::UnexpectedEndOfInput));
    assert_eq!(
        reader_of("def f").next_expression(),
        Ok(Some(Expression::FnDef(String::from("f"), None)))
    );
    assert_eq!(reader_of("  \n ").next_expression(), Ok(None));

    let mut stream = reader_of("def h\n  x\nend");
    assert_eq!(stream.next_expression(), Ok(Some(Expression::FnDef(String::from("h"), None))));
    assert_eq!(stream.next_expression(), Ok(Some(Expression::Unknown)));
    assert_eq!(stream.next_expression(), Ok(Some(Expression::Close)));
    assert_eq!(stream.next_expression(), Ok(None));
}

#[test]
fn comments_run_to_the_end_of_the_line() {
    let mut stream = reader_of("# class Hidden\n#end\nclass Seen # def f()\nend # end");
    assert_eq!(stream.next_expression(), Ok(Some(Expression::ClassOpen(String::from("Seen")))));
    assert_eq!(stream.next_expression(), Ok(Some(Expression::Close)));
    assert_eq!(stream.next_expression(), Ok(None));
    assert_eq!(stream.depth(), 0);
}

#[test]
fn tests_on_words() {
    assert!(String::from("Foo").is_capitalized());
    assert!(!String::from("foo").is_capitalized());
    assert!(!String::from("").is_capitalized());
    assert!(!String::from("1A").is_capitalized());
    assert!(TolkienString::is_blank(&String::new()));
    assert!(!TolkienString::is_blank(&String::from(" ")));

    assert!(Some(String::from("x")).present());
    assert!(!Some(String::new()).present());
    assert!(!None::<String>.present());
    assert!(Some(String::from("Zed")).is_capitalized());
    assert!(!Some(String::from("zed")).is_capitalized());
    assert!(!None::<String>.is_capitalized());
}

#[test]
fn literals_are_classified() {
    let infer = |text: &str| Type::infer(&mut reader_of(text));
    assert_eq!(infer("\"hello\""), Type::Primitive(Primitive::String));
    assert_eq!(infer("42"), Type::Primitive(Primitive::Integer));
    assert_eq!(infer("3.14"), Type::Primitive(Primitive::Float));
    assert_eq!(infer("true"), Type::Primitive(Primitive::Bool));
    assert_eq!(infer("false"), Type::Primitive(Primitive::Bool));
    assert_eq!(infer("nil"), Type::Primitive(Primitive::Nil));
    assert_eq!(infer("foo"), Type::Unknown);
    assert_eq!(infer("'hello'"), Type::Primitive(Primitive::String));
    assert_eq!(infer("[1, 2]"), Type::Array(Box::new(Type::Unknown)));
    assert_eq!(infer("{a: 1}"), Type::HashMap(Primitive::Unknown, Box::new(Type::Unknown)));
    assert_eq!(infer(""), Type::Unknown);
    assert_eq!(infer("  \n 7"), Type::Primitive(Primitive::Integer));
    assert_eq!(infer("\u{663}"), Type::Primitive(Primitive::Integer));
    assert_eq!(infer("nilx"), Type::Unknown);
    assert_eq!(infer("Foo"), Type::Unknown);
}

#[test]
fn a_literal_is_read_and_no_more() {
    let mut stream = reader_of(" \"a\\\"b\" rest");
    assert_eq!(Type::infer(&mut stream), Type::Primitive(Primitive::String));
    assert_eq!(stream.next_word(), Some(String::from("rest")));

    let mut stream = reader_of("'it\\\\' rest");
    assert_eq!(Type::infer(&mut stream), Type::Primitive(Primitive::String));
    assert_eq!(stream.peek(), Some(&' '));

    let mut stream = reader_of("\"it's\"x");
    assert_eq!(Type::infer(&mut stream), Type::Primitive(Primitive::String));
    assert_eq!(stream.peek(), Some(&'x'));

    let mut stream = reader_of("[1, [2, 3], []] rest");
    assert_eq!(Type::infer(&mut stream), Type::Array(Box::new(Type::Unknown)));
    assert_eq!(stream.peek(), Some(&' '));

    let mut stream = reader_of("{a: {b: [}]}}, x");
    assert_eq!(
        Type::infer(&mut stream),
        Type::HashMap(Primitive::Unknown, Box::new(Type::Unknown))
    );
    assert_eq!(stream.peek(), Some(&'}'));

    let mut stream = reader_of("1.5, x");
    assert_eq!(Type::infer(&mut stream), Type::Primitive(Primitive::Float));
    assert_eq!(stream.peek(), Some(&' '));

    let mut stream = reader_of("nil, x");
    assert_eq!(Type::infer(&mut stream), Type::Primitive(Primitive::Nil));
    assert_eq!(stream.peek(), Some(&','));

    let mut stream = reader_of("true) x");
    assert_eq!(Type::infer(&mut stream), Type::Primitive(Primitive::Bool));
    assert_eq!(stream.peek(), Some(&')'));

    let mut stream = reader_of(":sym");
    assert_eq!(Type::infer(&mut stream), Type::Unknown);
    assert_eq!(stream.peek(), Some(&':'));
}

#[test]
fn a_literal_cut_short_is_unknown() {
    for text in ["\"abc", "'abc\\'", "[1, [2]", "{", "\"", "'a\"", "[}"] {
        let mut stream = reader_of(text);
        assert_eq!(Type::infer(&mut stream), Type::Unknown, "{}", text);
        assert_eq!(stream.remaining(), 0, "{}", text);
    }
    assert_eq!(Type::read_string(&mut reader_of("\"abc")), Err(ParseError::UnexpectedEndOfInput));
    assert_eq!(Type::read_string(&mut reader_of("")), Err(ParseError::UnexpectedEndOfInput));
    assert_eq!(Type::read_array(&mut reader_of("[[]")), Err(ParseError::UnexpectedEndOfInput));
    assert_eq!(Type::read_hash(&mut reader_of("{{}")), Err(ParseError::UnexpectedEndOfInput));
    assert_eq!(Type::read_string(&mut reader_of("\"abc\"")), Ok(()));
    assert_eq!(Type::read_array(&mut reader_of("[[]]")), Ok(()));
    assert_eq!(Type::read_hash(&mut reader_of("{{}}")), Ok(()));
}

#[test]
fn classes_have_flags_of_their_own() {
    let all = [
        (Primitive::Nil, 0),
        (Primitive::Bool, 1),
        (Primitive::Integer, 2),
        (Primitive::Float, 4),
        (Primitive::String, 8),
        (Primitive::Unknown, 128),
    ];
    for (class, bits) in all {
        assert_eq!(class.bits(), bits);
        assert_eq!(Primitive::from_bits(bits), Some(class));
    }
    assert_eq!(Primitive::from_bits(3), None);
    assert_eq!(Primitive::from_bits(16), None);
}

#[test]
fn errors_have_messages() {
    assert_eq!(ParseError::UnmatchedClose.message(), "unexpected keyword \"end\"");
    assert_eq!(ParseError::ParameterOrderViolation.message(), "positional params must come first");
    assert_eq!(ParseError::MalformedConstantName.message(), "expected a constant name");
    assert_eq!(ParseError::UndefinedNamespaceSegment.message(), "undefined constant");
    assert_eq!(ParseError::MissingFunctionName.message(), "expected function name");
    assert_eq!(ParseError::UnexpectedEndOfInput.message(), "unexpected end of input");
}
