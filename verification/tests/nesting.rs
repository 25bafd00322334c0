use tolkien::error::ParseError;
use tolkien::tokenize::tokenize;
use tolkien::tokenize::TokenTree;

/// A small generator of numbers, the same on every run.
struct Numbers(u64);

impl Numbers {
    fn below(&mut self, limit: u64) -> u64 {
        self.0 = self.0.wrapping_mul(6364136223846793005).wrapping_add(1442695040888963407);
        (self.0 >> 33) % limit
    }
}

/// A source of matched pairs: `opens` constructs, nested at random, each
/// namespace under a name of its own. Returns the source and the number of
/// namespaces among the constructs.
fn matched_source(numbers: &mut Numbers, opens: usize) -> (String, usize) {
    let mut source = String::new();
    let mut namespaces = 0;
    let mut opened = 0;
    let mut depth = 0;
    while opened < opens || depth > 0 {
        let close = depth > 0 && (opened == opens || numbers.below(3) == 0);
        if close {
            source.push_str("end\n");
            depth -= 1;
            continue;
        }
        match numbers.below(3) {
            0 => {
                source.push_str(&format!("class C{}\n", opened));
                namespaces += 1;
            }
            1 => {
                source.push_str(&format!("module M{} # comment\n", opened));
                namespaces += 1;
            }
            _ => source.push_str(&format!("def f{}(a, b: {})\n", opened, opened)),
        }
        opened += 1;
        depth += 1;
    }
    (source, namespaces)
}

#[test]
fn matched_pairs_of_any_shape_return_to_the_root() {
    let mut numbers = Numbers(7);
    for round in 0..200 {
        let (source, namespaces) = matched_source(&mut numbers, round % 17);
        let tree = tokenize(source.clone()).unwrap();
        assert_eq!(tree.cursor(), tree.root(), "{}", source);
        assert_eq!(tree.len(), 1 + namespaces, "{}", source);
    }
}

#[test]
fn reopened_namespaces_are_counted_once() {
    let mut numbers = Numbers(11);
    for round in 0..50 {
        let (source, namespaces) = matched_source(&mut numbers, 1 + round % 9);
        let twice = format!("{}{}", source, source);
        let tree = tokenize(twice).unwrap();
        assert_eq!(tree.cursor(), tree.root(), "{}", source);
        assert!(tree.len() <= 1 + 2 * namespaces, "{}", source);
        assert!(tree.len() >= 1 + namespaces.min(1), "{}", source);
    }
}

#[test]
fn one_close_too_many_is_unmatched() {
    let mut numbers = Numbers(13);
    for round in 0..50 {
        let (source, _) = matched_source(&mut numbers, round % 9);
        let source = format!("{}end\n", source);
        assert_eq!(tokenize(source.clone()), Err(ParseError::UnmatchedClose), "{}", source);
    }
}

#[test]
fn reopening_finds_the_same_scopes() {
    let mut tree = TokenTree::new();
    for name in ["A", "A::B", "A::B::C", "A::D"] {
        assert_eq!(tree.add_namespace(String::from(name)), Ok(()));
        while tree.cursor() != tree.root() {
            assert_eq!(tree.close_scope(), Ok(()));
        }
    }
    let scopes = tree.len();
    for name in ["A", "A::B", "A::B::C", "A::D"] {
        assert_eq!(tree.add_namespace(String::from(name)), Ok(()));
        let first = tree.cursor();
        while tree.cursor() != tree.root() {
            assert_eq!(tree.close_scope(), Ok(()));
        }
        assert_eq!(tree.add_namespace(String::from(name)), Ok(()));
        assert_eq!(tree.cursor(), first);
        assert_eq!(tree.len(), scopes);
        while tree.cursor() != tree.root() {
            assert_eq!(tree.close_scope(), Ok(()));
        }
    }
}

#[test]
fn any_text_is_scanned_to_its_end_or_to_an_error() {
    let pieces = [
        "class ", "module ", "def ", "end", "A", "b", "::", "(", ")", ",", ":", " ", "\n", "#",
        "\"", "'", "\\", "[", "]", "{", "}", "1", ".", "nil", "true", "\u{e9}", ";", "_",
    ];
    let mut numbers = Numbers(17);
    for _ in 0..2000 {
        let mut source = String::new();
        for _ in 0..numbers.below(12) {
            source.push_str(pieces[numbers.below(pieces.len() as u64) as usize]);
        }
        match tokenize(source.clone()) {
            Ok(tree) => assert!(tree.cursor() < tree.len(), "{}", source),
            Err(_) => {}
        }
    }
}
