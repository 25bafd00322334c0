use vstd::prelude::*;
use vstd::std_specs::convert::FromSpecImpl;
use crate::definitions::Type;
use crate::definitions::TypeView;
use crate::error::ParseError;
use crate::text::at_any_of;
use crate::text::at_blank;
use crate::text::at_blank_or_any_of;
use crate::text::at_non_blank;
use crate::text::at_non_word;
use crate::text::chars_of;
use crate::text::contains_char;
use crate::text::first_char;
use crate::text::is_blank;
use crate::text::is_capitalized;
use crate::text::lemma_span_ends;
use crate::text::lemma_span_from;
use crate::text::span;
use crate::text::starts_uppercase;
use crate::text::string_of;
use crate::text::trim_start;

verus! {

/// The separators of the scanner, as a test on a character.
pub trait TolkienChar {
    spec fn is_separator(&self) -> bool;

    fn blank(&self) -> (b: bool)
        ensures
            b == self.is_separator(),
    ;
}

impl TolkienChar for char {
    open spec fn is_separator(&self) -> bool {
        is_blank(*self)
    }

    #[inline]
    fn blank(&self) -> (b: bool) {
        *self == ' ' || *self == '\n'
    }
}

/// Tests on a word that was read.
pub trait TolkienString {
    spec fn capitalized(&self) -> bool;

    spec fn empty(&self) -> bool;

    /// Whether the word starts with an uppercase letter.
    fn is_capitalized(&self) -> (b: bool)
        ensures
            b == self.capitalized(),
    ;

    /// Whether the word is empty.
    fn is_blank(&self) -> (b: bool)
        ensures
            b == self.empty(),
    ;
}

impl TolkienString for String {
    open spec fn capitalized(&self) -> bool {
        is_capitalized(self@)
    }

    open spec fn empty(&self) -> bool {
        self@.len() == 0
    }

    #[inline]
    fn is_capitalized(&self) -> (b: bool) {
        starts_uppercase(self.as_str())
    }

    #[inline]
    fn is_blank(&self) -> (b: bool) {
        self.as_str().is_empty()
    }
}

/// Tests on a word that may be missing.
pub trait TolkienOptString {
    spec fn has_text(&self) -> bool;

    spec fn capitalized(&self) -> bool;

    /// Whether there is a word, and it is not empty.
    fn present(&self) -> (b: bool)
        ensures
            b == self.has_text(),
    ;

    /// Whether there is a word, and it starts with an uppercase letter.
    fn is_capitalized(&self) -> (b: bool)
        ensures
            b == self.capitalized(),
    ;
}

impl TolkienOptString for Option<String> {
    open spec fn has_text(&self) -> bool {
        match self {
            Some(s) => s@.len() != 0,
            None => false,
        }
    }

    open spec fn capitalized(&self) -> bool {
        match self {
            Some(s) => is_capitalized(s@),
            None => false,
        }
    }

    #[inline]
    fn present(&self) -> (b: bool) {
        match self {
            Some(s) => !s.as_str().is_empty(),
            None => false,
        }
    }

    #[inline]
    fn is_capitalized(&self) -> (b: bool) {
        match self {
            Some(s) => TolkienString::is_capitalized(s),
            None => false,
        }
    }
}

/// What the scanner has open: each `class`, `module` and `def` leaves a
/// marker that the matching `end` takes away.
#[derive(Debug, Clone, Copy, PartialEq, Eq, Structural)]
pub enum Nesting {
    Class,
    Function,
}

/// The mathematical value of a [`FileReader`]: the text that is still to be
/// read, and the markers of what is open, innermost last.
pub struct ReaderView {
    pub rest: Seq<char>,
    pub nesting: Seq<Nesting>,
}

/// The characters of a source text and the place of the next one.
struct Stream {
    chars: Vec<char>,
    pos: usize,
}

/// How a stretch of text ends.
#[derive(Clone, Copy)]
enum Stop {
    /// At the first character that is no blank.
    NonBlank,
    /// At the first blank.
    Blank,
    /// At the first character that cannot stand in an identifier.
    NonWord,
    /// At the first of the delimiters.
    Delimiter,
    /// At the first blank or delimiter.
    BlankOrDelimiter,
}

impl Stop {
    spec fn test(self, delimiters: Seq<char>) -> spec_fn(char) -> bool {
        match self {
            Stop::NonBlank => at_non_blank(),
            Stop::Blank => at_blank(),
            Stop::NonWord => at_non_word(),
            Stop::Delimiter => at_any_of(delimiters),
            Stop::BlankOrDelimiter => at_blank_or_any_of(delimiters),
        }
    }

    fn holds(self, delimiters: &[char], c: char) -> (stops: bool)
        ensures
            stops == (self.test(delimiters@))(c),
    {
        match self {
            Stop::NonBlank => !c.blank(),
            Stop::Blank => c.blank(),
            Stop::NonWord => !(c.is_alphanumeric() || c == '_'),
            Stop::Delimiter => contains_char(delimiters, c),
            Stop::BlankOrDelimiter => c.blank() || contains_char(delimiters, c),
        }
    }
}

impl Stream {
    #[verifier::type_invariant]
    spec fn in_bounds(self) -> bool {
        self.pos <= self.chars.len()
    }

    /// The text that is still to be read.
    closed spec fn rest(&self) -> Seq<char> {
        self.chars@.skip(self.pos as int)
    }

    fn new(text: &str) -> (stream: Stream)
        ensures
            stream.rest() == text@,
    {
        Stream { chars: chars_of(text), pos: 0 }
    }

    fn remaining(&self) -> (left: usize)
        ensures
            left == self.rest().len(),
    {
        proof {
            use_type_invariant(self);
        }
        self.chars.len() - self.pos
    }

    fn peek(&self) -> (next: Option<&char>)
        ensures
            match next {
                Some(c) => self.rest().len() > 0 && *c == self.rest()[0],
                None => self.rest().len() == 0,
            },
    {
        proof {
            use_type_invariant(self);
        }
        if self.pos < self.chars.len() {
            Some(&self.chars[self.pos])
        } else {
            None
        }
    }

    fn next(&mut self) -> (next: Option<char>)
        ensures
            match next {
                Some(c) => old(self).rest().len() > 0 && c == old(self).rest()[0]
                    && final(self).rest() == old(self).rest().skip(1),
                None => old(self).rest().len() == 0 && final(self).rest() == old(self).rest(),
            },
    {
        proof {
            use_type_invariant(&*self);
        }
        if self.pos < self.chars.len() {
            let c = self.chars[self.pos];
            self.pos = self.pos + 1;
            Some(c)
        } else {
            None
        }
    }

    /// Moves to the first character at which `stop` holds, or to the end, and
    /// returns where it started: the stretch passed over is
    /// `self.chars[from..self.pos]`.
    fn advance(&mut self, stop: Stop, delimiters: &[char]) -> (from: usize)
        ensures
            final(self).chars == old(self).chars,
            from == old(self).pos,
            from <= final(self).pos <= final(self).chars.len(),
            final(self).pos - from == span(old(self).rest(), stop.test(delimiters@)),
            final(self).rest() == old(self).rest().skip(final(self).pos - from),
            final(self).chars@.subrange(from as int, final(self).pos as int)
                == old(self).rest().take(final(self).pos - from),
    {
        proof {
            use_type_invariant(&*self);
        }
        let from = self.pos;
        while self.pos < self.chars.len() && !stop.holds(delimiters, self.chars[self.pos])
            invariant
                self.chars == old(self).chars,
                from <= self.pos <= self.chars.len(),
                forall|i: int|
                    from <= i < self.pos ==> !(stop.test(delimiters@))(#[trigger] self.chars@[i]),
            decreases self.chars.len() - self.pos,
        {
            self.pos = self.pos + 1;
        }
        proof {
            lemma_span_from(
                self.chars@,
                stop.test(delimiters@),
                from as int,
                self.pos as int,
            );
        }
        from
    }

    /// Passes over the stretch that ends where `stop` holds.
    fn skip(&mut self, stop: Stop, delimiters: &[char])
        ensures
            span(old(self).rest(), stop.test(delimiters@)) <= old(self).rest().len(),
            final(self).rest() == old(self).rest().skip(
                span(old(self).rest(), stop.test(delimiters@)) as int,
            ),
    {
        let _ = self.advance(stop, delimiters);
    }

    /// Reads the stretch that ends where `stop` holds.
    fn take(&mut self, stop: Stop, delimiters: &[char]) -> (read: String)
        ensures
            span(old(self).rest(), stop.test(delimiters@)) <= old(self).rest().len(),
            read@ == old(self).rest().take(span(old(self).rest(), stop.test(delimiters@)) as int),
            final(self).rest() == old(self).rest().skip(
                span(old(self).rest(), stop.test(delimiters@)) as int,
            ),
    {
        let from = self.advance(stop, delimiters);
        string_of(&self.chars, from, self.pos)
    }
}

/// A cursor over the characters of a source text, with the markers of the
/// constructs that it has seen open.
pub struct FileReader {
    stack: Vec<Nesting>,
    stream: Stream,
}

impl View for FileReader {
    type V = ReaderView;

    closed spec fn view(&self) -> ReaderView {
        ReaderView { rest: self.stream.rest(), nesting: self.stack@ }
    }
}

impl FileReader {
    /// The next character, which stays in the stream.
    #[inline]
    pub fn peek(&self) -> (next: Option<&char>)
        ensures
            match next {
                Some(c) => self@.rest.len() > 0 && *c == self@.rest[0],
                None => self@.rest.len() == 0,
            },
    {
        self.stream.peek()
    }

    /// How many characters are left to read.
    pub fn remaining(&self) -> (left: usize)
        ensures
            left == self@.rest.len(),
    {
        self.stream.remaining()
    }

    /// How many constructs are open.
    pub fn depth(&self) -> (open: usize)
        ensures
            open == self@.nesting.len(),
    {
        self.stack.len()
    }

    /// Takes the next character out of the stream.
    #[inline]
    pub fn next(&mut self) -> (next: Option<char>)
        ensures
            final(self)@.nesting == old(self)@.nesting,
            match next {
                Some(c) => old(self)@.rest.len() > 0 && c == old(self)@.rest[0]
                    && final(self)@.rest == old(self)@.rest.skip(1),
                None => old(self)@.rest.len() == 0 && final(self)@.rest == old(self)@.rest,
            },
    {
        self.stream.next()
    }
}

/// What the scanner hands out: one structural construct of the source.
#[derive(Debug, PartialEq, Eq)]
pub enum Expression {
    /// The opening of a namespace, with its qualified name.
    ClassOpen(String),
    /// A function definition, with its name and the text of its parameter
    /// list.
    FnDef(String, Option<String>),
    /// The `end` of what was opened last.
    Close,
    /// A variable and the type of what it is given.
    Assignment(String, Type),
    /// A word with no structural meaning.
    Unknown,
}

/// The mathematical value of an [`Expression`].
pub enum ExpressionView {
    ClassOpen(Seq<char>),
    FnDef(Seq<char>, Option<Seq<char>>),
    Close,
    Assignment(Seq<char>, TypeView),
    Unknown,
}

impl View for Expression {
    type V = ExpressionView;

    open spec fn view(&self) -> ExpressionView {
        match self {
            Expression::ClassOpen(name) => ExpressionView::ClassOpen(name@),
            Expression::FnDef(name, params) => ExpressionView::FnDef(name@, params.deep_view()),
            Expression::Close => ExpressionView::Close,
            Expression::Assignment(name, t) => ExpressionView::Assignment(name@, t@),
            Expression::Unknown => ExpressionView::Unknown,
        }
    }
}

/// The result of reading from a text: what was read, and the text after it.
pub struct Scanned<T> {
    pub value: T,
    pub rest: Seq<char>,
}

/// The next word of `s`: after the leading blanks, the characters up to the
/// next blank. There is none when only blanks are left.
pub open spec fn scan_word(s: Seq<char>) -> Scanned<Option<Seq<char>>> {
    let t = trim_start(s);
    let n = span(t, at_blank()) as int;
    if t.len() == 0 {
        Scanned { value: None, rest: t }
    } else {
        Scanned { value: Some(t.take(n)), rest: t.skip(n) }
    }
}

/// The next identifier of `s`: after the leading blanks, the letters, digits
/// and underscores up to the first other character.
pub open spec fn scan_identifier(s: Seq<char>) -> Scanned<Option<Seq<char>>> {
    let t = trim_start(s);
    let n = span(t, at_non_word()) as int;
    if t.len() == 0 {
        Scanned { value: None, rest: t }
    } else {
        Scanned { value: Some(t.take(n)), rest: t.skip(n) }
    }
}

/// After the leading blanks of `s`, the characters up to the first of
/// `delimiters`, and that delimiter, which stays in the text. Blanks do not
/// end the stretch.
pub open spec fn scan_until(s: Seq<char>, delimiters: Seq<char>) -> Scanned<
    (Seq<char>, Option<char>),
> {
    let t = trim_start(s);
    let n = span(t, at_any_of(delimiters)) as int;
    Scanned {
        value: (
            t.take(n),
            if n < t.len() {
                Some(t[n])
            } else {
                None
            },
        ),
        rest: t.skip(n),
    }
}

/// After the leading blanks of `s`, the characters up to the first blank or
/// the first of `delimiters`, and the delimiter if one ended the stretch. It
/// stays in the text.
pub open spec fn scan_until_delim(s: Seq<char>, delimiters: Seq<char>) -> Scanned<
    (Seq<char>, Option<char>),
> {
    let t = trim_start(s);
    let n = span(t, at_blank_or_any_of(delimiters)) as int;
    Scanned {
        value: (
            t.take(n),
            if n < t.len() && !is_blank(t[n]) {
                Some(t[n])
            } else {
                None
            },
        ),
        rest: t.skip(n),
    }
}

/// As [`scan_until_delim`], but a delimiter that ends the stretch is taken
/// out of the text and put at the end of what was read.
pub open spec fn scan_until_delim_inclusive(s: Seq<char>, delimiters: Seq<char>) -> Scanned<
    Seq<char>,
> {
    let read = scan_until_delim(s, delimiters);
    match read.value.1 {
        Some(delimiter) => Scanned { value: read.value.0.push(delimiter), rest: read.rest.skip(1) },
        None => Scanned { value: read.value.0, rest: read.rest },
    }
}

/// `s` from its first line feed on.
pub open spec fn skip_line(s: Seq<char>) -> Seq<char> {
    s.skip(span(s, at_any_of(seq!['\n'])) as int)
}

/// The next line of `s`: the characters up to the first line feed or
/// semicolon, which is taken out of the text as well. The last line needs no
/// terminator; there is no line when `s` is empty.
pub open spec fn scan_line(s: Seq<char>) -> Scanned<Option<Seq<char>>> {
    let n = span(s, at_any_of(seq!['\n', ';'])) as int;
    if n < s.len() {
        Scanned { value: Some(s.take(n)), rest: s.skip(n + 1) }
    } else if n > 0 {
        Scanned { value: Some(s), rest: Seq::empty() }
    } else {
        Scanned { value: None, rest: Seq::empty() }
    }
}

/// The name of a namespace: the next word, which has to start with an
/// uppercase letter.
pub open spec fn scan_constant_name(s: Seq<char>) -> Scanned<Result<Seq<char>, ParseError>> {
    let word = scan_word(s);
    Scanned {
        value: match word.value {
            Some(name) if is_capitalized(name) => Ok(name),
            _ => Err(ParseError::MalformedConstantName),
        },
        rest: word.rest,
    }
}

/// The name of a function: what stands before the opening parenthesis, which
/// has to be something.
pub open spec fn scan_function_name(s: Seq<char>) -> Scanned<Result<Seq<char>, ParseError>> {
    let read = scan_until_delim(s, seq!['(']);
    Scanned {
        value: if read.value.0.len() == 0 {
            Err(ParseError::MissingFunctionName)
        } else {
            Ok(read.value.0)
        },
        rest: read.rest,
    }
}

/// The text of a parameter list: after blanks, an opening parenthesis and
/// everything up to the next closing parenthesis, with both. There is no
/// list where no parenthesis opens one; a list that the end of the text cuts
/// short is an error.
pub open spec fn scan_function_parameters(s: Seq<char>) -> Scanned<
    Result<Option<Seq<char>>, ParseError>,
> {
    let t = trim_start(s);
    let read = scan_until(t, seq![')']);
    if t.len() == 0 || t[0] != '(' {
        Scanned { value: Ok(None), rest: t }
    } else {
        match read.value.1 {
            Some(close) => Scanned {
                value: Ok(Some(read.value.0.push(close))),
                rest: read.rest.skip(1),
            },
            None => Scanned { value: Err(ParseError::UnexpectedEndOfInput), rest: read.rest },
        }
    }
}

/// Whether `word` opens a comment, which runs to the end of its line.
pub open spec fn is_comment(word: Seq<char>) -> bool {
    word.len() > 0 && word[0] == '#'
}

/// The next expression of a reader in state `r`, and the state it is left
/// in. Comments are passed over. `class` and `module` open a namespace and
/// `def` a function, each leaving a marker; `end` takes the last marker away
/// and fails where there is none. Any other word is read and reported as
/// unknown. At the end of the text there is no expression.
pub open spec fn scan_expression(r: ReaderView) -> (
    Result<Option<ExpressionView>, ParseError>,
    ReaderView,
)
    decreases r.rest.len(),
{
    let word = scan_word(r.rest);
    match word.value {
        None => (Ok(None), ReaderView { rest: word.rest, nesting: r.nesting }),
        Some(w) => {
            if is_comment(w) {
                proof {
                    lemma_comment_shortens(r.rest);
                }
                scan_expression(ReaderView { rest: skip_line(word.rest), nesting: r.nesting })
            } else if w == "class"@ || w == "module"@ {
                let name = scan_constant_name(word.rest);
                (
                    match name.value {
                        Ok(n) => Ok(Some(ExpressionView::ClassOpen(n))),
                        Err(e) => Err(e),
                    },
                    ReaderView { rest: name.rest, nesting: r.nesting.push(Nesting::Class) },
                )
            } else if w == "def"@ {
                let name = scan_function_name(word.rest);
                let params = scan_function_parameters(name.rest);
                let nesting = r.nesting.push(Nesting::Function);
                match name.value {
                    Err(e) => (Err(e), ReaderView { rest: name.rest, nesting }),
                    Ok(n) => (
                        match params.value {
                            Ok(p) => Ok(Some(ExpressionView::FnDef(n, p))),
                            Err(e) => Err(e),
                        },
                        ReaderView { rest: params.rest, nesting },
                    ),
                }
            } else if w == "end"@ {
                if r.nesting.len() == 0 {
                    (
                        Err(ParseError::UnmatchedClose),
                        ReaderView { rest: word.rest, nesting: r.nesting },
                    )
                } else {
                    (
                        Ok(Some(ExpressionView::Close)),
                        ReaderView { rest: word.rest, nesting: r.nesting.drop_last() },
                    )
                }
            } else {
                (
                    Ok(Some(ExpressionView::Unknown)),
                    ReaderView { rest: word.rest, nesting: r.nesting },
                )
            }
        },
    }
}

/// Leading blanks and a stretch taken off a text leave a text no longer than
/// it was.
pub proof fn lemma_trim_shortens(s: Seq<char>)
    ensures
        trim_start(s).len() <= s.len(),
        trim_start(s).len() > 0 ==> !is_blank(trim_start(s)[0]),
{
    lemma_span_ends(s, at_non_blank());
}

/// A word is not empty, and reading it shortens the text.
pub proof fn lemma_word_shortens(s: Seq<char>)
    ensures
        scan_word(s).rest.len() <= s.len(),
        scan_word(s).value matches Some(w) ==> w.len() > 0 && w[0] == trim_start(s)[0]
            && scan_word(s).rest.len() < s.len(),
{
    lemma_trim_shortens(s);
    let t = trim_start(s);
    lemma_span_ends(t, at_blank());
}

/// Passing over a comment shortens the text.
pub proof fn lemma_comment_shortens(s: Seq<char>)
    ensures
        scan_word(s).value is Some ==> skip_line(scan_word(s).rest).len() < s.len(),
{
    lemma_word_shortens(s);
    lemma_span_ends(scan_word(s).rest, at_any_of(seq!['\n']));
}

/// Reading up to a delimiter takes nothing back, and the delimiter that
/// ended the stretch is still to be read.
pub proof fn lemma_until_shortens(s: Seq<char>, delimiters: Seq<char>)
    ensures
        scan_until(s, delimiters).rest.len() <= s.len(),
        scan_until(s, delimiters).value.1 matches Some(d) ==> scan_until(s, delimiters).rest.len()
            > 0 && scan_until(s, delimiters).rest[0] == d && delimiters.contains(d),
        scan_until_delim(s, delimiters).rest.len() <= s.len(),
{
    lemma_trim_shortens(s);
    lemma_span_ends(trim_start(s), at_any_of(delimiters));
    lemma_span_ends(trim_start(s), at_blank_or_any_of(delimiters));
}

/// Reading an expression takes nothing back, and an expression that was
/// read has shortened the text.
pub proof fn lemma_expression_shortens(r: ReaderView)
    ensures
        scan_expression(r).1.rest.len() <= r.rest.len(),
        scan_expression(r).0 matches Ok(Some(_)) ==> scan_expression(r).1.rest.len()
            < r.rest.len(),
    decreases r.rest.len(),
{
    let word = scan_word(r.rest);
    lemma_word_shortens(r.rest);
    lemma_comment_shortens(r.rest);
    if let Some(w) = word.value {
        if is_comment(w) {
            lemma_expression_shortens(
                ReaderView { rest: skip_line(word.rest), nesting: r.nesting },
            );
        } else {
            lemma_word_shortens(word.rest);
            lemma_until_shortens(word.rest, seq!['(']);
            let after_name = scan_function_name(word.rest).rest;
            lemma_trim_shortens(after_name);
            lemma_until_shortens(trim_start(after_name), seq![')']);
        }
    }
}

/// All expressions that a reader in state `r` hands out, up to the end of
/// the text or to the error that ends the scan.
pub open spec fn expressions_of(r: ReaderView) -> (Seq<ExpressionView>, Option<ParseError>)
    decreases r.rest.len(),
{
    let (expression, next) = scan_expression(r);
    match expression {
        Ok(Some(expression)) => {
            proof {
                lemma_expression_shortens(r);
            }
            (seq![expression] + expressions_of(next).0, expressions_of(next).1)
        },
        Ok(None) => (Seq::empty(), None),
        Err(e) => (Seq::empty(), Some(e)),
    }
}

/// The value of a result of [`TolkienChars::next_expression`].
pub open spec fn expression_result(r: Result<Option<Expression>, ParseError>) -> Result<
    Option<ExpressionView>,
    ParseError,
> {
    match r {
        Ok(Some(e)) => Ok(Some(e@)),
        Ok(None) => Ok(None),
        Err(e) => Err(e),
    }
}

/// The value of a result that holds a name.
pub open spec fn name_result(r: Result<String, ParseError>) -> Result<Seq<char>, ParseError> {
    match r {
        Ok(name) => Ok(name@),
        Err(e) => Err(e),
    }
}

/// The value of a result that may hold the text of a parameter list.
pub open spec fn parameters_result(r: Result<Option<String>, ParseError>) -> Result<
    Option<Seq<char>>,
    ParseError,
> {
    match r {
        Ok(text) => Ok(text.deep_view()),
        Err(e) => Err(e),
    }
}

/// The scanner: reading words, delimited stretches, lines and whole
/// expressions from a stream of characters.
pub trait TolkienChars {
    /// The text that is left and the markers of what is open.
    spec fn state(&self) -> ReaderView;

    /// Passes over blanks.
    fn skip_blank(&mut self)
        ensures
            final(self).state().nesting == old(self).state().nesting,
            final(self).state().rest == trim_start(old(self).state().rest),
    ;

    /// Moves to the end of the line: the next line feed stays in the stream.
    fn to_next_line(&mut self)
        ensures
            final(self).state().nesting == old(self).state().nesting,
            final(self).state().rest == skip_line(old(self).state().rest),
    ;

    /// Reads a line and its terminator.
    fn next_line(&mut self) -> (line: Option<String>)
        ensures
            final(self).state().nesting == old(self).state().nesting,
            final(self).state().rest == scan_line(old(self).state().rest).rest,
            line.deep_view() == scan_line(old(self).state().rest).value,
    ;

    /// Reads the next structural construct.
    fn next_expression(&mut self) -> (expression: Result<Option<Expression>, ParseError>)
        ensures
            (expression_result(expression), final(self).state()) == scan_expression(
                old(self).state(),
            ),
    ;

    /// Reads the name of a namespace.
    fn next_constant_name(&mut self) -> (name: Result<String, ParseError>)
        ensures
            final(self).state().nesting == old(self).state().nesting,
            final(self).state().rest == scan_constant_name(old(self).state().rest).rest,
            name_result(name) == scan_constant_name(old(self).state().rest).value,
    ;

    /// Reads the name of a function, up to its parameter list.
    fn next_function_name(&mut self) -> (name: Result<String, ParseError>)
        ensures
            final(self).state().nesting == old(self).state().nesting,
            final(self).state().rest == scan_function_name(old(self).state().rest).rest,
            name_result(name) == scan_function_name(old(self).state().rest).value,
    ;

    /// Reads the text of a parameter list, from its opening parenthesis
    /// through the closing one, if one follows.
    fn next_function_parameters(&mut self) -> (text: Result<Option<String>, ParseError>)
        ensures
            final(self).state().nesting == old(self).state().nesting,
            final(self).state().rest == scan_function_parameters(old(self).state().rest).rest,
            parameters_result(text) == scan_function_parameters(old(self).state().rest).value,
    ;

    /// Reads the next word.
    fn next_word(&mut self) -> (word: Option<String>)
        ensures
            final(self).state().nesting == old(self).state().nesting,
            final(self).state().rest == scan_word(old(self).state().rest).rest,
            word.deep_view() == scan_word(old(self).state().rest).value,
    ;

    /// Reads the next identifier.
    fn next_alphanumeric_word(&mut self) -> (word: Option<String>)
        ensures
            final(self).state().nesting == old(self).state().nesting,
            final(self).state().rest == scan_identifier(old(self).state().rest).rest,
            word.deep_view() == scan_identifier(old(self).state().rest).value,
    ;

    /// Reads the next word, which has to be there.
    fn next_word_expected(&mut self) -> (word: Result<String, ParseError>)
        ensures
            final(self).state().nesting == old(self).state().nesting,
            final(self).state().rest == scan_word(old(self).state().rest).rest,
            name_result(word) == (match scan_word(old(self).state().rest).value {
                Some(w) => Ok(w),
                None => Err(ParseError::UnexpectedEndOfInput),
            }),
    ;

    /// Reads up to one of `delimiters`, across blanks.
    fn read_until(&mut self, delimiters: &[char]) -> (read: (String, Option<char>))
        ensures
            final(self).state().nesting == old(self).state().nesting,
            final(self).state().rest == scan_until(old(self).state().rest, delimiters@).rest,
            (read.0@, read.1) == scan_until(old(self).state().rest, delimiters@).value,
    ;

    /// Reads up to a blank or one of `delimiters`.
    fn read_until_delim(&mut self, delimiters: &[char]) -> (read: (String, Option<char>))
        ensures
            final(self).state().nesting == old(self).state().nesting,
            final(self).state().rest == scan_until_delim(old(self).state().rest, delimiters@).rest,
            (read.0@, read.1) == scan_until_delim(old(self).state().rest, delimiters@).value,
    ;

    /// Reads up to a blank or one of `delimiters`, and through the delimiter.
    fn read_until_delim_inclusive(&mut self, delimiters: &[char]) -> (read: String)
        ensures
            final(self).state().nesting == old(self).state().nesting,
            final(self).state().rest == scan_until_delim_inclusive(
                old(self).state().rest,
                delimiters@,
            ).rest,
            read@ == scan_until_delim_inclusive(old(self).state().rest, delimiters@).value,
    ;
}

impl TolkienChars for FileReader {
    open spec fn state(&self) -> ReaderView {
        self@
    }

    #[inline]
    fn skip_blank(&mut self) {
        self.stream.skip(Stop::NonBlank, &[]);
    }

    #[inline]
    fn to_next_line(&mut self) {
        let line_feed: [char; 1] = ['\n'];
        assert(line_feed@ =~= seq!['\n']);
        self.stream.skip(Stop::Delimiter, &line_feed);
    }

    #[inline]
    fn next_word(&mut self) -> (word: Option<String>) {
        self.skip_blank();
        if self.peek().is_none() {
            return None;
        }
        Some(self.stream.take(Stop::Blank, &[]))
    }

    #[inline]
    fn next_alphanumeric_word(&mut self) -> (word: Option<String>) {
        self.skip_blank();
        if self.peek().is_none() {
            return None;
        }
        Some(self.stream.take(Stop::NonWord, &[]))
    }

    fn next_word_expected(&mut self) -> (word: Result<String, ParseError>) {
        match self.next_word() {
            Some(word) => Ok(word),
            None => Err(ParseError::UnexpectedEndOfInput),
        }
    }

    #[inline]
    fn next_line(&mut self) -> (line: Option<String>) {
        let terminators: [char; 2] = ['\n', ';'];
        assert(terminators@ =~= seq!['\n', ';']);
        let line = self.stream.take(Stop::Delimiter, &terminators);
        let has_value = !TolkienString::is_blank(&line);
        match self.next() {
            Some(_) => Some(line),
            None => if has_value {
                Some(line)
            } else {
                None
            },
        }
    }

    fn read_until(&mut self, delimiters: &[char]) -> (read: (String, Option<char>)) {
        self.skip_blank();
        let result = self.stream.take(Stop::Delimiter, delimiters);
        match self.peek() {
            Some(c) => (result, Some(*c)),
            None => (result, None),
        }
    }

    fn read_until_delim(&mut self, delimiters: &[char]) -> (read: (String, Option<char>)) {
        self.skip_blank();
        let result = self.stream.take(Stop::BlankOrDelimiter, delimiters);
        match self.peek() {
            Some(c) => if c.blank() {
                (result, None)
            } else {
                (result, Some(*c))
            },
            None => (result, None),
        }
    }

    fn read_until_delim_inclusive(&mut self, delimiters: &[char]) -> (read: String) {
        let (mut result, delim) = self.read_until_delim(delimiters);
        if let Some(delim) = delim {
            let _ = self.next();
            result.push(delim);
        }
        result
    }

    fn next_constant_name(&mut self) -> (name: Result<String, ParseError>) {
        let name = self.next_word();
        if !TolkienOptString::is_capitalized(&name) {
            return Err(ParseError::MalformedConstantName);
        }
        match name {
            Some(name) => Ok(name),
            None => Err(ParseError::MalformedConstantName),
        }
    }

    fn next_function_name(&mut self) -> (name: Result<String, ParseError>) {
        let open: [char; 1] = ['('];
        assert(open@ =~= seq!['(']);
        let (name, _) = self.read_until_delim(&open);
        if TolkienString::is_blank(&name) {
            return Err(ParseError::MissingFunctionName);
        }
        Ok(name)
    }

    fn next_function_parameters(&mut self) -> (text: Result<Option<String>, ParseError>) {
        self.skip_blank();
        let opened = match self.peek() {
            Some(c) => *c == '(',
            None => false,
        };
        if !opened {
            return Ok(None);
        }
        let closing: [char; 1] = [')'];
        assert(closing@ =~= seq![')']);
        let (mut params, close) = self.read_until(&closing);
        match close {
            Some(close) => {
                let _ = self.next();
                params.push(close);
                Ok(Some(params))
            },
            None => Err(ParseError::UnexpectedEndOfInput),
        }
    }

    fn next_expression(&mut self) -> (expression: Result<Option<Expression>, ParseError>) {
        loop
            invariant
                scan_expression(self@) == scan_expression(old(self)@),
            decreases self@.rest.len(),
        {
            proof {
                lemma_comment_shortens(self@.rest);
            }
            let word = match self.next_word() {
                Some(word) => word,
                None => {
                    return Ok(None);
                },
            };
            if first_char(word.as_str()) == Some('#') {
                self.to_next_line();
                continue ;
            }
            if word.as_str().eq("class") || word.as_str().eq("module") {
                self.stack.push(Nesting::Class);
                return match self.next_constant_name() {
                    Ok(name) => Ok(Some(Expression::ClassOpen(name))),
                    Err(e) => Err(e),
                };
            }
            if word.as_str().eq("def") {
                self.stack.push(Nesting::Function);
                let name = match self.next_function_name() {
                    Ok(name) => name,
                    Err(e) => {
                        return Err(e);
                    },
                };
                return match self.next_function_parameters() {
                    Ok(params) => Ok(Some(Expression::FnDef(name, params))),
                    Err(e) => Err(e),
                };
            }
            if word.as_str().eq("end") {
                return match self.stack.pop() {
                    Some(_) => Ok(Some(Expression::Close)),
                    None => Err(ParseError::UnmatchedClose),
                };
            }
            return Ok(Some(Expression::Unknown));
        }
    }
}

impl From<String> for FileReader {
    /// A reader at the start of `string`, with nothing open.
    fn from(string: String) -> (reader: FileReader)
        ensures
            reader@.rest == string@,
            reader@.nesting.len() == 0,
    {
        FileReader { stack: Vec::new(), stream: Stream::new(string.as_str()) }
    }
}

impl FromSpecImpl<String> for FileReader {
    open spec fn obeys_from_spec() -> bool {
        false
    }

    closed spec fn from_spec(string: String) -> FileReader {
        choose|reader: FileReader| reader@ == (ReaderView { rest: string@, nesting: Seq::empty() })
    }
}

} // verus!
