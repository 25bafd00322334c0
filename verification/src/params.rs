use vstd::prelude::*;
use crate::definitions::closing_bracket_from;
use crate::definitions::closing_quote_from;
use crate::definitions::infer_type;
use crate::definitions::Param;
use crate::definitions::ParamView;
use crate::definitions::Type;
use crate::definitions::TypeView;
use crate::error::ParseError;
use crate::names::NameMap;
use crate::names::put;
use crate::reader::FileReader;
use crate::reader::lemma_trim_shortens;
use crate::reader::lemma_until_shortens;
use crate::reader::lemma_word_shortens;
use crate::reader::scan_until;
use crate::reader::Scanned;
use crate::reader::TolkienChars;
use crate::reader::TolkienString;
use crate::text::trim_start;
use crate::tokenize::TokenTree;

verus! {

/// The parameters that a parameter list declares.
pub struct ParamsView {
    /// The positional parameters, in their order.
    pub positional: Seq<ParamView>,
    /// The keyword parameters, by name.
    pub keyword: Seq<(Seq<char>, ParamView)>,
}

impl ParamsView {
    /// No parameters.
    pub open spec fn empty() -> ParamsView {
        ParamsView { positional: Seq::empty(), keyword: Seq::empty() }
    }

    /// With one more positional parameter, of unknown type.
    pub open spec fn with_positional(self) -> ParamsView {
        ParamsView {
            positional: self.positional.push(ParamView { t: TypeView::Unknown, default: None }),
            keyword: self.keyword,
        }
    }

    /// With the keyword parameter `name`, of unknown type.
    pub open spec fn with_keyword(self, name: Seq<char>, default: Option<TypeView>) -> ParamsView {
        ParamsView {
            positional: self.positional,
            keyword: put(self.keyword, name, ParamView { t: TypeView::Unknown, default }),
        }
    }
}

/// The text of a parameter list without its opening parenthesis.
pub open spec fn without_open(s: Seq<char>) -> Seq<char> {
    let t = trim_start(s);
    if t.len() > 0 && t[0] == '(' {
        t.skip(1)
    } else {
        t
    }
}

/// The default value after the colon of a keyword parameter: the type of
/// the literal that follows, or none where the list goes on or ends at once.
pub open spec fn default_of(s: Seq<char>) -> Scanned<Option<TypeView>> {
    let t = trim_start(s);
    if t.len() == 0 || t[0] == ',' || t[0] == ')' {
        Scanned { value: None, rest: t }
    } else {
        Scanned { value: Some(infer_type(t).value), rest: infer_type(t).rest }
    }
}

/// The parameters that the list `s` declares, after those `declared` so
/// far.
///
/// Tokens are read up to a `:`, `,` or `)`. A token before `:` names a
/// keyword parameter, whose default value follows. A token before `,` or
/// `)` is a positional parameter, which may not follow a keyword parameter.
/// Empty tokens declare nothing. The list ends at `)` or at the end of the
/// text; a token that the end of the text cuts short is an error.
pub open spec fn parse_params(s: Seq<char>, declared: ParamsView) -> Result<
    ParamsView,
    ParseError,
>
    decreases s.len(),
{
    let token = scan_until(s, TokenTree::PARAM_DELIM@);
    let name = token.value.0;
    match token.value.1 {
        None => if name.len() == 0 {
            Ok(declared)
        } else {
            Err(ParseError::UnexpectedEndOfInput)
        },
        Some(delimiter) => {
            let after = token.rest.skip(1);
            if delimiter == ':' {
                proof {
                    lemma_until_shortens(s, TokenTree::PARAM_DELIM@);
                    lemma_default_shortens(after);
                }
                parse_params(
                    default_of(after).rest,
                    if name.len() == 0 {
                        declared
                    } else {
                        declared.with_keyword(name, default_of(after).value)
                    },
                )
            } else if name.len() > 0 && declared.keyword.len() > 0 {
                Err(ParseError::ParameterOrderViolation)
            } else {
                let next = if name.len() > 0 {
                    declared.with_positional()
                } else {
                    declared
                };
                if delimiter == ')' {
                    Ok(next)
                } else {
                    proof {
                        lemma_until_shortens(s, TokenTree::PARAM_DELIM@);
                    }
                    parse_params(after, next)
                }
            }
        },
    }
}

/// The parameters that the text of a parameter list declares; without a
/// list there are none.
pub open spec fn parameters_of(text: Option<Seq<char>>) -> Result<ParamsView, ParseError> {
    match text {
        Some(text) => parse_params(without_open(text), ParamsView::empty()),
        None => Ok(ParamsView::empty()),
    }
}

/// A closing quote lies in the literal, from where the search started.
pub proof fn lemma_closing_quote(s: Seq<char>, i: int)
    requires
        0 <= i,
    ensures
        closing_quote_from(s, i) matches Some(end) ==> i <= end < s.len(),
    decreases s.len() - i,
{
    if i < s.len() {
        lemma_closing_quote(s, i + 1);
    }
}

/// A closing bracket lies in the literal, from where the search started.
pub proof fn lemma_closing_bracket(s: Seq<char>, open: char, close: char, i: int)
    requires
        0 <= i,
    ensures
        closing_bracket_from(s, open, close, i) matches Some(end) ==> i <= end < s.len(),
    decreases s.len() - i,
{
    if i < s.len() {
        lemma_closing_bracket(s, open, close, i + 1);
    }
}

/// Reading a literal takes nothing back.
pub proof fn lemma_infer_shortens(s: Seq<char>)
    ensures
        infer_type(s).rest.len() <= s.len(),
{
    let t = trim_start(s);
    lemma_trim_shortens(s);
    lemma_closing_quote(t, 1);
    lemma_closing_bracket(t, '[', ']', 1);
    lemma_closing_bracket(t, '{', '}', 1);
    lemma_word_shortens(t);
    lemma_until_shortens(t, TokenTree::PARAM_DELIM@);
}

/// Reading a default value takes nothing back.
pub proof fn lemma_default_shortens(s: Seq<char>)
    ensures
        default_of(s).rest.len() <= s.len(),
{
    lemma_trim_shortens(s);
    lemma_infer_shortens(trim_start(s));
}

/// The texts of `params`.
pub open spec fn param_views(params: Seq<Param>) -> Seq<ParamView> {
    params.map_values(|p: Param| p@)
}

/// Reads the parameters that the text of a parameter list declares: the
/// positional ones in their order, and the keyword ones by name.
pub fn parse_parameters(text: String) -> (params: Result<(Vec<Param>, NameMap<Param>), ParseError>)
    ensures
        match parse_params(without_open(text@), ParamsView::empty()) {
            Ok(list) => params matches Ok((positional, keyword)) && param_views(positional@)
                == list.positional && keyword@ == list.keyword,
            Err(e) => params matches Err(error) && error == e,
        },
{
    let ghost all = parse_params(without_open(text@), ParamsView::empty());
    let mut reader = FileReader::from(text);
    reader.skip_blank();
    let opened = match reader.peek() {
        Some(c) => *c == '(',
        None => false,
    };
    if opened {
        let _ = reader.next();
    }
    let mut positional: Vec<Param> = Vec::new();
    let mut keyword: NameMap<Param> = NameMap::new();
    assert(param_views(positional@) =~= Seq::<ParamView>::empty());
    loop
        invariant
            all == parse_params(without_open(text@), ParamsView::empty()),
            all == parse_params(
                reader@.rest,
                ParamsView { positional: param_views(positional@), keyword: keyword@ },
            ),
        decreases reader@.rest.len(),
    {
        let ghost declared = ParamsView {
            positional: param_views(positional@),
            keyword: keyword@,
        };
        let ghost s = reader@.rest;
        proof {
            lemma_until_shortens(s, TokenTree::PARAM_DELIM@);
        }
        let (name, delimiter) = reader.read_until(&TokenTree::PARAM_DELIM);
        let delimiter = match delimiter {
            Some(delimiter) => delimiter,
            None => {
                return if TolkienString::is_blank(&name) {
                    Ok((positional, keyword))
                } else {
                    Err(ParseError::UnexpectedEndOfInput)
                };
            },
        };
        let _ = reader.next();
        if delimiter == ':' {
            let ghost after = reader@.rest;
            proof {
                lemma_default_shortens(after);
            }
            reader.skip_blank();
            let follows = match reader.peek() {
                Some(c) => Some(*c),
                None => None,
            };
            let default = match follows {
                None => None,
                Some(c) => if c == ',' || c == ')' {
                    None
                } else {
                    Some(Type::infer(&mut reader))
                },
            };
            if !TolkienString::is_blank(&name) {
                let param = Param { t: Type::Unknown, default };
                keyword.insert(name, param);
            }
        } else {
            if !TolkienString::is_blank(&name) {
                if keyword.len() > 0 {
                    return Err(ParseError::ParameterOrderViolation);
                }
                let param = Param { t: Type::Unknown, default: None };
                positional.push(param);
                assert(param_views(positional@) =~= declared.with_positional().positional);
            }
            if delimiter == ')' {
                return Ok((positional, keyword));
            }
        }
    }
}

} // verus!
