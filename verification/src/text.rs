use vstd::prelude::*;
use vstd::string::axiom_spec_iter;
use vstd::string::next_postcondition;

verus! {

/// `String::push` appends one character to the string.
pub assume_specification[ std::string::String::push ](s: &mut std::string::String, c: char)
    ensures
        final(s)@ == old(s)@.push(c),
;

/// `str`'s `==`: two string slices are equal when they hold the same
/// characters.
pub assume_specification[ <str as PartialEq>::eq ](a: &str, b: &str) -> (same: bool)
    ensures
        same == (a@ == b@),
;

/// Whether Unicode classes `c` as a number (general categories Nd, Nl, No).
pub uninterp spec fn unicode_numeric(c: char) -> bool;

/// Whether Unicode classes `c` as alphabetic or as a number.
pub uninterp spec fn unicode_alphanumeric(c: char) -> bool;

/// `char::is_numeric` tests the Unicode number categories. Among the ASCII
/// characters these hold the ten decimal digits and nothing else.
pub assume_specification[ char::is_numeric ](c: char) -> (numeric: bool)
    ensures
        numeric == unicode_numeric(c),
        c <= '\x7f' ==> (numeric <==> is_ascii_digit(c)),
;

/// `char::is_alphanumeric` tests for a Unicode letter or number. Among the
/// ASCII characters these are the letters and the decimal digits.
pub assume_specification[ char::is_alphanumeric ](c: char) -> (alphanumeric: bool)
    ensures
        alphanumeric == unicode_alphanumeric(c),
        c <= '\x7f' ==> (alphanumeric <==> (is_ascii_digit(c) || is_ascii_letter(c))),
;

/// Whether `c` is a number: a decimal digit among the ASCII characters,
/// and what Unicode classes as a number beyond them.
pub open spec fn is_number(c: char) -> bool {
    if c <= '\x7f' {
        is_ascii_digit(c)
    } else {
        unicode_numeric(c)
    }
}

/// Whether `c` is a letter or a number: an ASCII letter or decimal digit,
/// and what Unicode classes as alphabetic or as a number beyond ASCII.
pub open spec fn is_letter_or_number(c: char) -> bool {
    if c <= '\x7f' {
        is_ascii_digit(c) || is_ascii_letter(c)
    } else {
        unicode_alphanumeric(c)
    }
}

/// One of the ten decimal digits.
pub open spec fn is_ascii_digit(c: char) -> bool {
    '0' <= c && c <= '9'
}

/// One of the letters `a` to `z` and `A` to `Z`.
pub open spec fn is_ascii_letter(c: char) -> bool {
    ('a' <= c && c <= 'z') || is_uppercase(c)
}

/// An ASCII uppercase letter, the mark of a constant name.
pub open spec fn is_uppercase(c: char) -> bool {
    'A' <= c && c <= 'Z'
}

/// The separators between words: the space and the line feed.
pub open spec fn is_blank(c: char) -> bool {
    c == ' ' || c == '\n'
}

/// A character that may stand in an identifier.
pub open spec fn is_word_char(c: char) -> bool {
    is_letter_or_number(c) || c == '_'
}

/// The length of the longest prefix of `s` that holds no character at which
/// `stop` is true.
pub open spec fn span(s: Seq<char>, stop: spec_fn(char) -> bool) -> nat
    decreases s.len(),
{
    if s.len() == 0 || stop(s[0]) {
        0
    } else {
        1 + span(s.drop_first(), stop)
    }
}

/// The stop at a blank.
pub open spec fn at_blank() -> spec_fn(char) -> bool {
    |c: char| is_blank(c)
}

/// The stop at anything but a blank.
pub open spec fn at_non_blank() -> spec_fn(char) -> bool {
    |c: char| !is_blank(c)
}

/// The stop at a character that cannot stand in an identifier.
pub open spec fn at_non_word() -> spec_fn(char) -> bool {
    |c: char| !is_word_char(c)
}

/// The stop at one of `delimiters`.
pub open spec fn at_any_of(delimiters: Seq<char>) -> spec_fn(char) -> bool {
    |c: char| delimiters.contains(c)
}

/// The stop at a blank or at one of `delimiters`.
pub open spec fn at_blank_or_any_of(delimiters: Seq<char>) -> spec_fn(char) -> bool {
    |c: char| is_blank(c) || delimiters.contains(c)
}

/// Whether `s` starts with an uppercase letter, as a constant name does.
pub open spec fn is_capitalized(s: Seq<char>) -> bool {
    s.len() > 0 && is_uppercase(s[0])
}

/// `s` without its leading blanks.
pub open spec fn trim_start(s: Seq<char>) -> Seq<char> {
    s.skip(span(s, at_non_blank()) as int)
}

/// What `span` returns is the one position that ends a stop-free prefix.
pub proof fn lemma_span_is(s: Seq<char>, stop: spec_fn(char) -> bool, n: int)
    requires
        0 <= n <= s.len(),
        forall|i: int| 0 <= i < n ==> !stop(#[trigger] s[i]),
        n < s.len() ==> stop(s[n]),
    ensures
        span(s, stop) == n,
    decreases s.len(),
{
    if n > 0 {
        let t = s.drop_first();
        assert forall|i: int| 0 <= i < n - 1 implies !stop(#[trigger] t[i]) by {
            assert(t[i] == s[i + 1]);
        }
        lemma_span_is(t, stop, n - 1);
    }
}

/// The prefix that `span` measures is free of stops, and a stop follows it
/// unless it is the whole of `s`.
pub proof fn lemma_span_ends(s: Seq<char>, stop: spec_fn(char) -> bool)
    ensures
        span(s, stop) <= s.len(),
        forall|i: int| 0 <= i < span(s, stop) ==> !stop(#[trigger] s[i]),
        span(s, stop) < s.len() ==> stop(s[span(s, stop) as int]),
    decreases s.len(),
{
    if s.len() == 0 || stop(s[0]) {
    } else {
        let t = s.drop_first();
        lemma_span_ends(t, stop);
        assert forall|i: int| 0 <= i < span(s, stop) implies !stop(#[trigger] s[i]) by {
            if i > 0 {
                assert(s[i] == t[i - 1]);
            }
        }
        if span(s, stop) < s.len() {
            assert(s[span(s, stop) as int] == t[span(t, stop) as int]);
        }
    }
}

/// Scanning a stretch of a longer text: the stop-free stretch from `start`
/// to `end` is what `span` measures on the text from `start` on.
pub proof fn lemma_span_from(
    text: Seq<char>,
    stop: spec_fn(char) -> bool,
    start: int,
    end: int,
)
    requires
        0 <= start <= end <= text.len(),
        forall|i: int| start <= i < end ==> !stop(#[trigger] text[i]),
        end < text.len() ==> stop(text[end]),
    ensures
        span(text.skip(start), stop) == end - start,
{
    let s = text.skip(start);
    assert forall|i: int| 0 <= i < end - start implies !stop(#[trigger] s[i]) by {
        assert(s[i] == text[start + i]);
    }
    lemma_span_is(s, stop, end - start);
}

/// Whether the separator of a qualified name, `::`, stands at `i` of `s`.
pub open spec fn separator_at(s: Seq<char>, i: int) -> bool {
    0 <= i && i + 1 < s.len() && s[i] == ':' && s[i + 1] == ':'
}

/// The length of the first segment of a qualified name: the place of the
/// first separator, or the length of the name.
pub open spec fn segment_len(s: Seq<char>) -> nat
    decreases s.len(),
{
    if s.len() == 0 || separator_at(s, 0) {
        0
    } else {
        1 + segment_len(s.drop_first())
    }
}

/// The segments of a qualified name, which `::` separates. There is always
/// at least one, and a segment may be empty.
pub open spec fn split_path(s: Seq<char>) -> Seq<Seq<char>>
    decreases s.len(),
{
    let n = segment_len(s) as int;
    if n >= s.len() {
        seq![s]
    } else {
        proof {
            lemma_segment_ends(s);
        }
        seq![s.take(n)] + split_path(s.skip(n + 2))
    }
}

/// The first segment holds no separator, and one follows it unless it is
/// the whole name.
pub proof fn lemma_segment_ends(s: Seq<char>)
    ensures
        segment_len(s) <= s.len(),
        forall|i: int| 0 <= i < segment_len(s) ==> !#[trigger] separator_at(s, i),
        segment_len(s) < s.len() ==> separator_at(s, segment_len(s) as int),
    decreases s.len(),
{
    if s.len() == 0 || separator_at(s, 0) {
    } else {
        let t = s.drop_first();
        lemma_segment_ends(t);
        assert forall|i: int| 0 <= i < segment_len(s) implies !#[trigger] separator_at(s, i) by {
            if i > 0 {
                assert(!separator_at(t, i - 1));
            }
        }
    }
}

/// Scanning a segment of a longer name: the separator-free stretch from
/// `start` to `end` is the first segment of the name from `start` on.
pub proof fn lemma_segment_from(name: Seq<char>, start: int, end: int)
    requires
        0 <= start <= end <= name.len(),
        forall|i: int| start <= i < end ==> !#[trigger] separator_at(name, i),
        end < name.len() ==> separator_at(name, end),
    ensures
        segment_len(name.skip(start)) == end - start,
    decreases end - start,
{
    let s = name.skip(start);
    if start == end {
        if end < name.len() {
            assert(separator_at(s, 0));
        }
    } else {
        assert(!separator_at(name, start));
        assert(!separator_at(s, 0));
        lemma_segment_from(name, start + 1, end);
        assert(s.drop_first() =~= name.skip(start + 1));
    }
}

/// A qualified name has at least one segment, and a name of one segment is
/// that segment.
pub proof fn lemma_split_path(s: Seq<char>)
    ensures
        split_path(s).len() >= 1,
        split_path(s).len() == 1 ==> split_path(s) == seq![s],
    decreases s.len(),
{
    let n = segment_len(s) as int;
    if n < s.len() {
        lemma_segment_ends(s);
        lemma_split_path(s.skip(n + 2));
    }
}

/// The texts of `words`.
pub open spec fn texts(words: Seq<String>) -> Seq<Seq<char>> {
    words.map_values(|word: String| word@)
}

/// Splits a qualified name at each `::`.
pub fn split_segments(name: &str) -> (segments: Vec<String>)
    ensures
        texts(segments@) == split_path(name@),
{
    let chars = chars_of(name);
    let mut segments: Vec<String> = Vec::new();
    let mut start: usize = 0;
    let mut i: usize = 0;
    proof {
        assert(chars@.skip(0) =~= chars@);
        assert(texts(segments@) + split_path(chars@) =~= split_path(chars@));
    }
    while i < chars.len()
        invariant
            chars@ == name@,
            start <= i <= chars.len(),
            forall|j: int| start <= j < i ==> !#[trigger] separator_at(chars@, j),
            split_path(chars@) == texts(segments@) + split_path(chars@.skip(start as int)),
        decreases chars.len() - i,
    {
        if chars[i] == ':' && i + 1 < chars.len() && chars[i + 1] == ':' {
            let segment = string_of(&chars, start, i);
            proof {
                let rest = chars@.skip(start as int);
                lemma_segment_from(chars@, start as int, i as int);
                assert(rest.take(i - start) =~= segment@);
                assert(rest.skip(i - start + 2) =~= chars@.skip(i + 2));
                assert(texts(segments@.push(segment)) =~= texts(segments@) + seq![segment@]);
            }
            segments.push(segment);
            i = i + 2;
            start = i;
        } else {
            i = i + 1;
        }
    }
    let segment = string_of(&chars, start, chars.len());
    proof {
        let rest = chars@.skip(start as int);
        lemma_segment_from(chars@, start as int, chars.len() as int);
        assert(rest =~= segment@);
        assert(texts(segments@.push(segment)) =~= texts(segments@) + seq![segment@]);
    }
    segments.push(segment);
    segments
}

/// Whether `c` is one of `delimiters`.
pub fn contains_char(delimiters: &[char], c: char) -> (found: bool)
    ensures
        found == delimiters@.contains(c),
{
    let mut i: usize = 0;
    while i < delimiters.len()
        invariant
            i <= delimiters.len(),
            forall|j: int| 0 <= j < i ==> delimiters@[j] != c,
        decreases delimiters.len() - i,
    {
        if delimiters[i] == c {
            return true;
        }
        i = i + 1;
    }
    false
}

/// The first character of `s`, if it has one.
pub fn first_char(s: &str) -> (first: Option<char>)
    ensures
        first == (if s@.len() > 0 {
            Some(s@[0])
        } else {
            None
        }),
{
    broadcast use {next_postcondition, axiom_spec_iter};

    let mut chars = s.chars();
    chars.next()
}

/// Whether `s` starts with an uppercase letter.
pub fn starts_uppercase(s: &str) -> (capital: bool)
    ensures
        capital == is_capitalized(s@),
{
    match first_char(s) {
        Some(c) => c >= 'A' && c <= 'Z',
        None => false,
    }
}

/// The characters of `s`, in order.
pub fn chars_of(s: &str) -> (chars: Vec<char>)
    ensures
        chars@ == s@,
{
    let mut chars: Vec<char> = Vec::new();
    for c in it: s.chars()
        invariant
            it.seq() == s@,
            chars@ == it.seq().take(it.index() as int),
    {
        chars.push(c);
    }
    chars
}

/// The string made of `chars[from..to]`.
pub fn string_of(chars: &Vec<char>, from: usize, to: usize) -> (s: String)
    requires
        from <= to <= chars.len(),
    ensures
        s@ == chars@.subrange(from as int, to as int),
{
    let mut s = String::new();
    let mut i: usize = from;
    while i < to
        invariant
            from <= i <= to <= chars.len(),
            s@ == chars@.subrange(from as int, i as int),
        decreases to - i,
    {
        s.push(chars[i]);
        i = i + 1;
    }
    s
}

} // verus!
