use vstd::prelude::*;
use crate::error::ParseError;
use crate::names::NameMap;
use crate::reader::FileReader;
use crate::reader::scan_until_delim;
use crate::reader::scan_word;
use crate::reader::Scanned;
use crate::reader::TolkienChars;
use crate::text::chars_of;
use crate::text::contains_char;
use crate::text::is_number;
use crate::text::trim_start;
use crate::tokenize::TokenTree;

verus! {

/// The base classification of a value. Each class has a flag of its own, and
/// a value belongs to exactly one class.
#[derive(Debug, Clone, Copy, PartialEq, Eq, Structural)]
pub enum Primitive {
    Nil,
    Bool,
    Integer,
    Float,
    String,
    Unknown,
}

impl Primitive {
    /// The flag of the class.
    pub open spec fn flag(self) -> nat {
        match self {
            Primitive::Nil => 0,
            Primitive::Bool => 1,
            Primitive::Integer => 2,
            Primitive::Float => 4,
            Primitive::String => 8,
            Primitive::Unknown => 128,
        }
    }

    /// The flag of the class, as stored.
    pub fn bits(&self) -> (bits: u32)
        ensures
            bits == self.flag(),
    {
        match self {
            Primitive::Nil => 0,
            Primitive::Bool => 1,
            Primitive::Integer => 2,
            Primitive::Float => 4,
            Primitive::String => 8,
            Primitive::Unknown => 128,
        }
    }

    /// The class with the given flag, if there is one.
    pub fn from_bits(bits: u32) -> (class: Option<Primitive>)
        ensures
            match class {
                Some(p) => p.flag() == bits,
                None => forall|p: Primitive| p.flag() != bits,
            },
    {
        if bits == 0 {
            Some(Primitive::Nil)
        } else if bits == 1 {
            Some(Primitive::Bool)
        } else if bits == 2 {
            Some(Primitive::Integer)
        } else if bits == 4 {
            Some(Primitive::Float)
        } else if bits == 8 {
            Some(Primitive::String)
        } else if bits == 128 {
            Some(Primitive::Unknown)
        } else {
            None
        }
    }
}

/// Each class has a flag of its own: the flag tells the class.
pub proof fn law_flags_tell_classes_apart(p: Primitive, q: Primitive)
    ensures
        p.flag() == q.flag() <==> p == q,
{
}

/// What is known of the type of a value.
#[derive(Debug, PartialEq, Eq)]
pub enum Type {
    Unknown,
    /// A class, by name.
    Class(String),
    /// A map, by the class of its keys and the type of its values.
    HashMap(Primitive, Box<Type>),
    /// An array, by the type of its elements.
    Array(Box<Type>),
    Primitive(Primitive),
}

/// The mathematical value of a [`Type`].
pub enum TypeView {
    Unknown,
    Class(Seq<char>),
    HashMap(Primitive, Box<TypeView>),
    Array(Box<TypeView>),
    Primitive(Primitive),
}

impl View for Type {
    type V = TypeView;

    open spec fn view(&self) -> TypeView
        decreases self,
    {
        match self {
            Type::Unknown => TypeView::Unknown,
            Type::Class(name) => TypeView::Class(name@),
            Type::HashMap(key, value) => TypeView::HashMap(*key, Box::new((**value).view())),
            Type::Array(element) => TypeView::Array(Box::new((**element).view())),
            Type::Primitive(p) => TypeView::Primitive(*p),
        }
    }
}

/// A formal parameter: its type and, where it has a default value, the type
/// of that value.
#[derive(Debug, PartialEq, Eq)]
pub struct Param {
    pub t: Type,
    pub default: Option<Type>,
}

/// The mathematical value of a [`Param`].
pub struct ParamView {
    pub t: TypeView,
    pub default: Option<TypeView>,
}

impl View for Param {
    type V = ParamView;

    open spec fn view(&self) -> ParamView {
        ParamView {
            t: self.t@,
            default: match self.default {
                Some(t) => Some(t@),
                None => None,
            },
        }
    }
}

/// The place of a scope in the table of scopes of its tree.
pub type Cursor = usize;

/// The kind of a scope.
#[derive(Debug, Clone, Copy, PartialEq, Eq, Structural)]
pub enum ScopeType {
    /// No kind: the scope of a whole program, and a scope just made.
    Unset,
    Class,
    Module,
    Block,
}

impl Default for ScopeType {
    fn default() -> (kind: Self)
        ensures
            kind == ScopeType::Unset,
    {
        ScopeType::Unset
    }
}

/// A function: its parameters, what it returns, and the scope that it was
/// declared in.
#[derive(Debug, PartialEq, Eq)]
pub struct Function {
    pub name: Option<String>,
    /// The positional parameters, in their order.
    pub pos_params: Vec<Param>,
    /// The keyword parameters, by name.
    pub key_params: NameMap<Param>,
    pub returns: Primitive,
    pub scope: Cursor,
}

/// The mathematical value of a [`Function`].
pub struct FunctionView {
    pub name: Option<Seq<char>>,
    pub pos_params: Seq<ParamView>,
    pub key_params: Seq<(Seq<char>, ParamView)>,
    pub returns: Primitive,
    pub scope: Cursor,
}

impl View for Function {
    type V = FunctionView;

    open spec fn view(&self) -> FunctionView {
        FunctionView {
            name: self.name.deep_view(),
            pos_params: self.pos_params@.map_values(|p: Param| p@),
            key_params: self.key_params@,
            returns: self.returns,
            scope: self.scope,
        }
    }
}

/// One lexical nesting level, with what is declared directly in it.
#[derive(Debug, PartialEq, Eq)]
pub struct Scope {
    /// The name; the scope of the whole program has none.
    pub name: Option<String>,
    pub scope_type: ScopeType,
    /// The scope that this one lies in.
    pub parent: Option<Cursor>,
    /// The scopes that lie in this one, by name.
    pub children: NameMap<Cursor>,
    /// The functions, by name.
    pub funs: NameMap<Function>,
    /// The variables, by name, with their types.
    pub vars: NameMap<Type>,
}

/// The mathematical value of a [`Scope`].
pub struct ScopeView {
    pub name: Option<Seq<char>>,
    pub scope_type: ScopeType,
    pub parent: Option<Cursor>,
    pub children: Seq<(Seq<char>, Cursor)>,
    pub funs: Seq<(Seq<char>, FunctionView)>,
    pub vars: Seq<(Seq<char>, TypeView)>,
}

impl View for Scope {
    type V = ScopeView;

    open spec fn view(&self) -> ScopeView {
        ScopeView {
            name: self.name.deep_view(),
            scope_type: self.scope_type,
            parent: self.parent,
            children: self.children@,
            funs: self.funs@,
            vars: self.vars@,
        }
    }
}

impl ScopeView {
    /// A scope in which nothing is declared yet.
    pub open spec fn empty(name: Option<Seq<char>>, parent: Option<Cursor>) -> ScopeView {
        ScopeView {
            name,
            scope_type: ScopeType::Unset,
            parent,
            children: Seq::empty(),
            funs: Seq::empty(),
            vars: Seq::empty(),
        }
    }
}

impl Scope {
    /// A scope of no kind yet, in which nothing is declared.
    pub fn new(name: Option<&str>, parent: Option<Cursor>) -> (scope: Scope)
        ensures
            scope@ == ScopeView::empty(name.deep_view(), parent),
    {
        Scope {
            name: match name {
                Some(name) => Some(name.to_owned()),
                None => None,
            },
            scope_type: ScopeType::Unset,
            parent,
            children: NameMap::new(),
            funs: NameMap::new(),
            vars: NameMap::new(),
        }
    }
}

impl Default for Scope {
    /// The scope of a whole program.
    fn default() -> (scope: Scope)
        ensures
            scope@ == ScopeView::empty(None, None),
    {
        Scope::new(None, None)
    }
}

/// Whether the character at `i` of a literal `s` is escaped: a backslash
/// that is not escaped itself stands right before it. The opening quote, at
/// 0, escapes nothing.
pub open spec fn is_escaped(s: Seq<char>, i: int) -> bool
    decreases i,
{
    i > 1 && s[i - 1] == '\\' && !is_escaped(s, i - 1)
}

/// Whether the string literal that `s[0]` opens is closed at `i`: by the
/// same quote, not escaped.
pub open spec fn closes_string(s: Seq<char>, i: int) -> bool {
    0 < i < s.len() && s[i] == s[0] && !is_escaped(s, i)
}

/// The first place from `i` on at which the string literal is closed.
pub open spec fn closing_quote_from(s: Seq<char>, i: int) -> Option<int>
    decreases s.len() - i,
{
    if i >= s.len() {
        None
    } else if closes_string(s, i) {
        Some(i)
    } else {
        closing_quote_from(s, i + 1)
    }
}

/// Reading the string literal that the first character of `s` opens: it
/// runs through the closing quote. Without one, the whole text is taken and
/// the literal is reported as cut short.
pub open spec fn scan_string(s: Seq<char>) -> Scanned<Result<(), ParseError>> {
    match closing_quote_from(s, 1) {
        Some(end) => Scanned { value: Ok(()), rest: s.skip(end + 1) },
        None => Scanned { value: Err(ParseError::UnexpectedEndOfInput), rest: Seq::empty() },
    }
}

/// How many brackets are open after the first `n` characters of a literal
/// `s`, which its first character opens.
pub open spec fn open_brackets(s: Seq<char>, open: char, close: char, n: int) -> int
    decreases n,
{
    if n <= 0 {
        0
    } else if n == 1 {
        1
    } else if s[n - 1] == open {
        open_brackets(s, open, close, n - 1) + 1
    } else if s[n - 1] == close {
        open_brackets(s, open, close, n - 1) - 1
    } else {
        open_brackets(s, open, close, n - 1)
    }
}

/// The first place from `i` on at which the bracketed literal is closed: the
/// bracket there leaves none open.
pub open spec fn closing_bracket_from(s: Seq<char>, open: char, close: char, i: int) -> Option<
    int,
>
    decreases s.len() - i,
{
    if i >= s.len() {
        None
    } else if i >= 1 && open_brackets(s, open, close, i + 1) == 0 {
        Some(i)
    } else {
        closing_bracket_from(s, open, close, i + 1)
    }
}

/// Reading the bracketed literal that the first character of `s` opens: it
/// runs through the bracket that closes it, brackets of the same kind
/// inside it being matched in pairs. Without that bracket, the whole text is
/// taken and the literal is reported as cut short.
pub open spec fn scan_bracketed(s: Seq<char>, open: char, close: char) -> Scanned<
    Result<(), ParseError>,
> {
    match closing_bracket_from(s, open, close, 1) {
        Some(end) => Scanned { value: Ok(()), rest: s.skip(end + 1) },
        None => Scanned { value: Err(ParseError::UnexpectedEndOfInput), rest: Seq::empty() },
    }
}

/// The type of the literal at the start of `s`, after blanks, and the text
/// that follows the literal.
///
/// A quote opens a string, `[` an array and `{` a hash, each of unknown
/// content. A numeric character opens a number, which runs to the next
/// blank and is a float if it holds a point. Otherwise the word up to the
/// next blank or parameter delimiter is read: `nil`, `true` and `false` have
/// a type, any other word has none that is known.
pub open spec fn infer_type(s: Seq<char>) -> Scanned<TypeView> {
    let t = trim_start(s);
    let unknown = Box::new(TypeView::Unknown);
    if t.len() == 0 {
        Scanned { value: TypeView::Unknown, rest: t }
    } else if t[0] == '"' || t[0] == '\'' {
        Scanned {
            value: match scan_string(t).value {
                Ok(_) => TypeView::Primitive(Primitive::String),
                Err(_) => TypeView::Unknown,
            },
            rest: scan_string(t).rest,
        }
    } else if t[0] == '[' {
        Scanned {
            value: match scan_bracketed(t, '[', ']').value {
                Ok(_) => TypeView::Array(unknown),
                Err(_) => TypeView::Unknown,
            },
            rest: scan_bracketed(t, '[', ']').rest,
        }
    } else if t[0] == '{' {
        Scanned {
            value: match scan_bracketed(t, '{', '}').value {
                Ok(_) => TypeView::HashMap(Primitive::Unknown, unknown),
                Err(_) => TypeView::Unknown,
            },
            rest: scan_bracketed(t, '{', '}').rest,
        }
    } else if is_number(t[0]) {
        Scanned {
            value: match scan_word(t).value {
                Some(number) => if number.contains('.') {
                    TypeView::Primitive(Primitive::Float)
                } else {
                    TypeView::Primitive(Primitive::Integer)
                },
                None => TypeView::Unknown,
            },
            rest: scan_word(t).rest,
        }
    } else {
        let word = scan_until_delim(t, TokenTree::PARAM_DELIM@).value.0;
        Scanned {
            value: if word == "nil"@ {
                TypeView::Primitive(Primitive::Nil)
            } else if word == "true"@ || word == "false"@ {
                TypeView::Primitive(Primitive::Bool)
            } else {
                TypeView::Unknown
            },
            rest: scan_until_delim(t, TokenTree::PARAM_DELIM@).rest,
        }
    }
}

/// Reads a bracketed literal, from its opening bracket through the one that
/// closes it.
pub fn read_bracketed(reader: &mut FileReader, open: char, close: char) -> (read: Result<
    (),
    ParseError,
>)
    ensures
        final(reader)@.nesting == old(reader)@.nesting,
        final(reader)@.rest == scan_bracketed(old(reader)@.rest, open, close).rest,
        read == scan_bracketed(old(reader)@.rest, open, close).value,
{
    let ghost s = reader@.rest;
    let total = reader.remaining();
    if reader.next().is_none() {
        assert(reader@.rest =~= Seq::<char>::empty());
        return Err(ParseError::UnexpectedEndOfInput);
    }
    let mut depth: usize = 1;
    let ghost mut i: int = 1;
    loop
        invariant
            s == old(reader)@.rest,
            1 <= i <= s.len(),
            s.len() == total,
            reader@.rest == s.skip(i),
            reader@.nesting == old(reader)@.nesting,
            depth == open_brackets(s, open, close, i),
            1 <= depth <= i,
            closing_bracket_from(s, open, close, 1) == closing_bracket_from(s, open, close, i),
        decreases s.len() - i,
    {
        match reader.next() {
            None => {
                assert(reader@.rest =~= Seq::<char>::empty());
                return Err(ParseError::UnexpectedEndOfInput);
            },
            Some(c) => {
                assert(c == s[i]);
                assert(s.skip(i).skip(1) =~= s.skip(i + 1));
                if c == open {
                    depth = depth + 1;
                } else if c == close {
                    depth = depth - 1;
                    if depth == 0 {
                        return Ok(());
                    }
                }
                proof {
                    i = i + 1;
                }
            },
        }
    }
}

impl Type {
    /// Reads a string literal, from its opening quote through the closing
    /// one. A backslash takes from the character after it any meaning.
    pub fn read_string(reader: &mut FileReader) -> (read: Result<(), ParseError>)
        ensures
            final(reader)@.nesting == old(reader)@.nesting,
            final(reader)@.rest == scan_string(old(reader)@.rest).rest,
            read == scan_string(old(reader)@.rest).value,
    {
        let ghost s = reader@.rest;
        let quote = match reader.next() {
            Some(quote) => quote,
            None => {
                assert(reader@.rest =~= Seq::<char>::empty());
                return Err(ParseError::UnexpectedEndOfInput);
            },
        };
        let mut escaped = false;
        let ghost mut i: int = 1;
        loop
            invariant
                s == old(reader)@.rest,
                1 <= i <= s.len(),
                quote == s[0],
                reader@.rest == s.skip(i),
                reader@.nesting == old(reader)@.nesting,
                escaped == is_escaped(s, i),
                closing_quote_from(s, 1) == closing_quote_from(s, i),
            decreases s.len() - i,
        {
            match reader.next() {
                None => {
                    assert(reader@.rest =~= Seq::<char>::empty());
                    return Err(ParseError::UnexpectedEndOfInput);
                },
                Some(c) => {
                    assert(c == s[i]);
                    assert(s.skip(i).skip(1) =~= s.skip(i + 1));
                    if escaped {
                        escaped = false;
                    } else if c == quote {
                        return Ok(());
                    } else if c == '\\' {
                        escaped = true;
                    }
                    proof {
                        i = i + 1;
                    }
                },
            }
        }
    }

    /// Classifies the literal at the cursor by the way it starts, and reads
    /// it. A literal that the end of the text cuts short, and anything that
    /// is no literal, is of unknown type.
    pub fn infer(reader: &mut FileReader) -> (t: Type)
        ensures
            final(reader)@.nesting == old(reader)@.nesting,
            final(reader)@.rest == infer_type(old(reader)@.rest).rest,
            t@ == infer_type(old(reader)@.rest).value,
    {
        reader.skip_blank();
        let first = match reader.peek() {
            Some(first) => *first,
            None => {
                return Type::Unknown;
            },
        };
        if first == '"' || first == '\'' {
            return match Self::read_string(reader) {
                Ok(()) => Type::Primitive(Primitive::String),
                Err(_) => Type::Unknown,
            };
        }
        if first == '[' {
            let element = Type::Unknown;
            assert(element@ == TypeView::Unknown);
            return match Self::read_array(reader) {
                Ok(()) => Type::Array(Box::new(element)),
                Err(_) => Type::Unknown,
            };
        }
        if first == '{' {
            let value = Type::Unknown;
            assert(value@ == TypeView::Unknown);
            return match Self::read_hash(reader) {
                Ok(()) => Type::HashMap(Primitive::Unknown, Box::new(value)),
                Err(_) => Type::Unknown,
            };
        }
        if first.is_numeric() {
            return match reader.next_word() {
                Some(word) => {
                    let digits = chars_of(word.as_str());
                    if contains_char(digits.as_slice(), '.') {
                        Type::Primitive(Primitive::Float)
                    } else {
                        Type::Primitive(Primitive::Integer)
                    }
                },
                None => Type::Unknown,
            };
        }
        let (word, _) = reader.read_until_delim(&TokenTree::PARAM_DELIM);
        if word.as_str().eq("nil") {
            Type::Primitive(Primitive::Nil)
        } else if word.as_str().eq("true") || word.as_str().eq("false") {
            Type::Primitive(Primitive::Bool)
        } else {
            Type::Unknown
        }
    }

    /// Reads an array literal, from `[` through the matching `]`.
    pub fn read_array(reader: &mut FileReader) -> (read: Result<(), ParseError>)
        ensures
            final(reader)@.nesting == old(reader)@.nesting,
            final(reader)@.rest == scan_bracketed(old(reader)@.rest, '[', ']').rest,
            read == scan_bracketed(old(reader)@.rest, '[', ']').value,
    {
        read_bracketed(reader, '[', ']')
    }

    /// Reads a hash literal, from `{` through the matching `}`.
    pub fn read_hash(reader: &mut FileReader) -> (read: Result<(), ParseError>)
        ensures
            final(reader)@.nesting == old(reader)@.nesting,
            final(reader)@.rest == scan_bracketed(old(reader)@.rest, '{', '}').rest,
            read == scan_bracketed(old(reader)@.rest, '{', '}').value,
    {
        read_bracketed(reader, '{', '}')
    }
}

} // verus!
