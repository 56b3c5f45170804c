//! The parser: recursive descent over the token sequence.
//!
//! `sp_value`, `sp_elements` and `sp_members` form the mathematical
//! parser; the executable functions below return exactly what they
//! describe. A value consumes at least one token, which the spec parser
//! states through `lemma_sp_bounds`.

use crate::digits::digits_to_i64;
use crate::digits::digits_val;
use crate::digits::is_digit_char;
use crate::lexer::spec_tokenize;
use crate::lexer::tokenize;
use crate::token::tokens_view;
use crate::token::ParseError;
use crate::token::SpecToken;
use crate::token::Token;
use crate::value::value_view;
use crate::value::SpecValue;
use crate::value::Value;
use vstd::prelude::*;

verus! {

/// One parsed value and the position just past it, or the error.
pub open spec fn sp_value(ts: Seq<SpecToken>, pos: int) -> Result<(SpecValue, int), ParseError>
    decreases ts.len() - pos, 0int,
{
    if pos < 0 || pos >= ts.len() {
        Err(ParseError::UnexpectedToken)
    } else {
        match ts[pos] {
            SpecToken::Null => Ok((SpecValue::Null, pos + 1)),
            SpecToken::Boolean(b) => Ok((SpecValue::Boolean(b), pos + 1)),
            SpecToken::String(s) => Ok((SpecValue::String(s), pos + 1)),
            SpecToken::Number(ds) => if digits_val(ds) > i64::MAX {
                Err(ParseError::NumericOverflow)
            } else {
                Ok((SpecValue::Number(digits_val(ds) as int), pos + 1))
            },
            SpecToken::LeftBracket => {
                if pos + 1 >= ts.len() {
                    Err(ParseError::UnterminatedContainer)
                } else if ts[pos + 1] is RightBracket {
                    Ok((SpecValue::Array(Seq::empty()), pos + 2))
                } else {
                    sp_elements(ts, pos + 1, Seq::empty())
                }
            },
            SpecToken::LeftBrace => {
                if pos + 1 >= ts.len() {
                    Err(ParseError::UnterminatedContainer)
                } else if ts[pos + 1] is RightBrace {
                    Ok((SpecValue::Object(Seq::empty()), pos + 2))
                } else {
                    sp_members(ts, pos + 1, Seq::empty())
                }
            },
            _ => Err(ParseError::UnexpectedToken),
        }
    }
}

/// The elements of an array from `pos` on, given those already read.
/// `pos` stands at the start of an element.
pub open spec fn sp_elements(ts: Seq<SpecToken>, pos: int, acc: Seq<SpecValue>) -> Result<
    (SpecValue, int),
    ParseError,
>
    decreases ts.len() - pos, 1int,
{
    match sp_value(ts, pos) {
        Err(e) => Err(e),
        Ok((v, p2)) => {
            if p2 >= ts.len() {
                Err(ParseError::UnterminatedContainer)
            } else if ts[p2] is Comma {
                if pos < p2 {
                    sp_elements(ts, p2 + 1, acc.push(v))
                } else {
                    Err(ParseError::UnterminatedContainer)
                }
            } else if ts[p2] is RightBracket {
                Ok((SpecValue::Array(acc.push(v)), p2 + 1))
            } else {
                Err(ParseError::UnexpectedToken)
            }
        },
    }
}

/// The members of an object from `pos` on, given those already read.
/// `pos` stands at the start of a key.
pub open spec fn sp_members(
    ts: Seq<SpecToken>,
    pos: int,
    acc: Seq<(Seq<char>, SpecValue)>,
) -> Result<(SpecValue, int), ParseError>
    decreases ts.len() - pos, 1int,
{
    if pos < 0 || pos >= ts.len() {
        Err(ParseError::UnterminatedContainer)
    } else {
        match ts[pos] {
            SpecToken::String(k) => {
                if pos + 1 >= ts.len() {
                    Err(ParseError::UnterminatedContainer)
                } else if !(ts[pos + 1] is Colon) {
                    Err(ParseError::UnexpectedToken)
                } else {
                    match sp_value(ts, pos + 2) {
                        Err(e) => Err(e),
                        Ok((v, p2)) => {
                            if p2 >= ts.len() {
                                Err(ParseError::UnterminatedContainer)
                            } else if ts[p2] is Comma {
                                if pos < p2 {
                                    sp_members(ts, p2 + 1, acc.push((k, v)))
                                } else {
                                    Err(ParseError::UnterminatedContainer)
                                }
                            } else if ts[p2] is RightBrace {
                                Ok((SpecValue::Object(acc.push((k, v))), p2 + 1))
                            } else {
                                Err(ParseError::UnexpectedToken)
                            }
                        },
                    }
                }
            },
            _ => Err(ParseError::UnexpectedToken),
        }
    }
}

/// A whole document: one value, and nothing after it.
pub open spec fn spec_parse_tokens(ts: Seq<SpecToken>) -> Result<SpecValue, ParseError> {
    match sp_value(ts, 0) {
        Err(e) => Err(e),
        Ok((v, p)) => if p == ts.len() {
            Ok(v)
        } else {
            Err(ParseError::TrailingContent)
        },
    }
}

/// What `parse` returns on `s`: the tokens of `s`, parsed as one document.
pub open spec fn spec_parse(s: Seq<char>) -> Result<SpecValue, ParseError> {
    spec_parse_tokens(spec_tokenize(s))
}

/// A successful parse step lands strictly past its starting position and
/// within the token sequence.
pub proof fn lemma_sp_value_bounds(ts: Seq<SpecToken>, pos: int)
    ensures
        sp_value(ts, pos) matches Ok((v, p2)) ==> pos < p2 <= ts.len(),
    decreases ts.len() - pos, 0int,
{
    if 0 <= pos < ts.len() {
        match ts[pos] {
            SpecToken::LeftBracket => {
                if pos + 1 < ts.len() && !(ts[pos + 1] is RightBracket) {
                    lemma_sp_elements_bounds(ts, pos + 1, Seq::empty());
                }
            },
            SpecToken::LeftBrace => {
                if pos + 1 < ts.len() && !(ts[pos + 1] is RightBrace) {
                    lemma_sp_members_bounds(ts, pos + 1, Seq::empty());
                }
            },
            _ => {},
        }
    }
}

/// As `lemma_sp_value_bounds`, for the element list of an array.
pub proof fn lemma_sp_elements_bounds(ts: Seq<SpecToken>, pos: int, acc: Seq<SpecValue>)
    ensures
        sp_elements(ts, pos, acc) matches Ok((v, p2)) ==> pos < p2 <= ts.len(),
    decreases ts.len() - pos, 1int,
{
    lemma_sp_value_bounds(ts, pos);
    match sp_value(ts, pos) {
        Err(_) => {},
        Ok((v, p2)) => {
            if p2 < ts.len() && ts[p2] is Comma && pos < p2 {
                lemma_sp_elements_bounds(ts, p2 + 1, acc.push(v));
            }
        },
    }
}

/// As `lemma_sp_value_bounds`, for the member list of an object.
pub proof fn lemma_sp_members_bounds(ts: Seq<SpecToken>, pos: int, acc: Seq<(Seq<char>, SpecValue)>)
    ensures
        sp_members(ts, pos, acc) matches Ok((v, p2)) ==> pos < p2 <= ts.len(),
    decreases ts.len() - pos, 1int,
{
    if 0 <= pos < ts.len() {
        match ts[pos] {
            SpecToken::String(k) => {
                if pos + 1 < ts.len() && ts[pos + 1] is Colon {
                    lemma_sp_value_bounds(ts, pos + 2);
                    match sp_value(ts, pos + 2) {
                        Err(_) => {},
                        Ok((v, p2)) => {
                            if p2 < ts.len() && ts[p2] is Comma && pos < p2 {
                                lemma_sp_members_bounds(ts, p2 + 1, acc.push((k, v)));
                            }
                        },
                    }
                }
            },
            _ => {},
        }
    }
}

/// Does the executable step `r` return exactly what the spec step `s`
/// describes?
pub open spec fn step_models(
    r: Result<(Value, usize), ParseError>,
    s: Result<(SpecValue, int), ParseError>,
) -> bool {
    match (r, s) {
        (Ok((v, p)), Ok((sv, sp))) => value_view(v) == sv && p as int == sp,
        (Err(e), Err(se)) => e == se,
        _ => false,
    }
}

/// Parses one value starting at `pos`.
fn parse_value_at(toks: &Vec<Token>, pos: usize) -> (r: Result<(Value, usize), ParseError>)
    requires
        crate::lexer::tokens_wf(tokens_view(toks@)),
        pos <= toks@.len(),
    ensures
        step_models(r, sp_value(tokens_view(toks@), pos as int)),
        r matches Ok((v, p2)) ==> pos < p2 <= toks@.len(),
    decreases toks@.len() - pos, 0int,
{
    let ghost tv = tokens_view(toks@);
    proof {
        lemma_sp_value_bounds(tv, pos as int);
    }
    let n = toks.len();
    if pos >= n {
        return Err(ParseError::UnexpectedToken);
    }
    proof {
        assert(tv[pos as int] == toks@[pos as int]@);
    }
    match &toks[pos] {
        Token::Null => Ok((Value::Null, pos + 1)),
        Token::Boolean(b) => Ok((Value::Boolean(*b), pos + 1)),
        Token::String(s) => Ok((Value::String(s.clone()), pos + 1)),
        Token::Number(ds) => {
            proof {
                assert(crate::lexer::token_wf(tv[pos as int]));
            }
            match digits_to_i64(ds.as_str()) {
                Some(v) => Ok((Value::Number(v), pos + 1)),
                None => Err(ParseError::NumericOverflow),
            }
        },
        Token::LeftBracket => {
            if pos + 1 == n {
                Err(ParseError::UnterminatedContainer)
            } else {
                proof {
                    assert(tv[pos as int + 1] == toks@[pos as int + 1]@);
                }
                match &toks[pos + 1] {
                    Token::RightBracket => {
                        let elems: Vec<Value> = Vec::new();
                        let v = Value::Array(elems);
                        proof {
                            crate::value::lemma_array_view(v->Array_0);
                            assert(crate::value::values_view(Seq::empty()) =~= Seq::<
                                SpecValue,
                            >::empty());
                        }
                        Ok((v, pos + 2))
                    },
                    _ => parse_elements(toks, pos + 1),
                }
            }
        },
        Token::LeftBrace => {
            if pos + 1 == n {
                Err(ParseError::UnterminatedContainer)
            } else {
                proof {
                    assert(tv[pos as int + 1] == toks@[pos as int + 1]@);
                }
                match &toks[pos + 1] {
                    Token::RightBrace => {
                        let members: Vec<(String, Value)> = Vec::new();
                        let v = Value::Object(members);
                        proof {
                            crate::value::lemma_object_view(v->Object_0);
                            assert(crate::value::members_view(Seq::empty()) =~= Seq::<
                                (Seq<char>, SpecValue),
                            >::empty());
                        }
                        Ok((v, pos + 2))
                    },
                    _ => parse_members(toks, pos + 1),
                }
            }
        },
        _ => Err(ParseError::UnexpectedToken),
    }
}

/// Parses the elements of an array whose first element starts at `pos`.
fn parse_elements(toks: &Vec<Token>, pos: usize) -> (r: Result<(Value, usize), ParseError>)
    requires
        crate::lexer::tokens_wf(tokens_view(toks@)),
        pos <= toks@.len(),
    ensures
        step_models(r, sp_elements(tokens_view(toks@), pos as int, Seq::empty())),
        r matches Ok((v, p2)) ==> pos < p2 <= toks@.len(),
    decreases toks@.len() - pos, 1int,
{
    let ghost tv = tokens_view(toks@);
    let n = toks.len();
    let mut acc: Vec<Value> = Vec::new();
    let mut cur: usize = pos;
    proof {
        assert(crate::value::values_view(acc@) =~= Seq::<SpecValue>::empty());
        lemma_sp_elements_bounds(tv, pos as int, Seq::empty());
    }
    loop
        invariant
            crate::lexer::tokens_wf(tv),
            tv == tokens_view(toks@),
            n == toks@.len(),
            pos <= cur <= n,
            sp_elements(tv, pos as int, Seq::empty()) == sp_elements(
                tv,
                cur as int,
                crate::value::values_view(acc@),
            ),
            sp_elements(tv, pos as int, Seq::empty()) matches Ok((v, p2)) ==> pos < p2
                <= toks@.len(),
        decreases n - cur,
    {
        let ghost accv = crate::value::values_view(acc@);
        match parse_value_at(toks, cur) {
            Err(e) => {
                return Err(e);
            },
            Ok((v, p2)) => {
                if p2 >= n {
                    return Err(ParseError::UnterminatedContainer);
                }
                proof {
                    assert(tv[p2 as int] == toks@[p2 as int]@);
                    crate::value::lemma_values_view_push(acc@, v);
                }
                match &toks[p2] {
                    Token::Comma => {
                        acc.push(v);
                        cur = p2 + 1;
                    },
                    Token::RightBracket => {
                        acc.push(v);
                        let val = Value::Array(acc);
                        proof {
                            crate::value::lemma_array_view(val->Array_0);
                        }
                        return Ok((val, p2 + 1));
                    },
                    _ => {
                        return Err(ParseError::UnexpectedToken);
                    },
                }
            },
        }
    }
}

/// Parses the members of an object whose first key starts at `pos`.
fn parse_members(toks: &Vec<Token>, pos: usize) -> (r: Result<(Value, usize), ParseError>)
    requires
        crate::lexer::tokens_wf(tokens_view(toks@)),
        pos <= toks@.len(),
    ensures
        step_models(r, sp_members(tokens_view(toks@), pos as int, Seq::empty())),
        r matches Ok((v, p2)) ==> pos < p2 <= toks@.len(),
    decreases toks@.len() - pos, 1int,
{
    let ghost tv = tokens_view(toks@);
    let n = toks.len();
    let mut acc: Vec<(String, Value)> = Vec::new();
    let mut cur: usize = pos;
    proof {
        assert(crate::value::members_view(acc@) =~= Seq::<(Seq<char>, SpecValue)>::empty());
        lemma_sp_members_bounds(tv, pos as int, Seq::empty());
    }
    loop
        invariant
            crate::lexer::tokens_wf(tv),
            tv == tokens_view(toks@),
            n == toks@.len(),
            pos <= cur <= n,
            sp_members(tv, pos as int, Seq::empty()) == sp_members(
                tv,
                cur as int,
                crate::value::members_view(acc@),
            ),
            sp_members(tv, pos as int, Seq::empty()) matches Ok((v, p2)) ==> pos < p2
                <= toks@.len(),
        decreases n - cur,
    {
        if cur >= n {
            return Err(ParseError::UnterminatedContainer);
        }
        proof {
            assert(tv[cur as int] == toks@[cur as int]@);
        }
        match &toks[cur] {
            Token::String(k) => {
                if cur + 1 >= n {
                    return Err(ParseError::UnterminatedContainer);
                }
                proof {
                    assert(tv[cur as int + 1] == toks@[cur as int + 1]@);
                }
                let colon_next = match &toks[cur + 1] {
                    Token::Colon => true,
                    _ => false,
                };
                if !colon_next {
                    return Err(ParseError::UnexpectedToken);
                }
                let key = k.clone();
                match parse_value_at(toks, cur + 2) {
                    Err(e) => {
                        return Err(e);
                    },
                    Ok((v, p2)) => {
                        if p2 >= n {
                            return Err(ParseError::UnterminatedContainer);
                        }
                        proof {
                            assert(tv[p2 as int] == toks@[p2 as int]@);
                            crate::value::lemma_members_view_push(acc@, (key, v));
                        }
                        match &toks[p2] {
                            Token::Comma => {
                                acc.push((key, v));
                                cur = p2 + 1;
                            },
                            Token::RightBrace => {
                                acc.push((key, v));
                                let val = Value::Object(acc);
                                proof {
                                    crate::value::lemma_object_view(val->Object_0);
                                }
                                return Ok((val, p2 + 1));
                            },
                            _ => {
                                return Err(ParseError::UnexpectedToken);
                            },
                        }
                    },
                }
            },
            _ => {
                return Err(ParseError::UnexpectedToken);
            },
        }
    }
}

/// The model of a parse result: the model of the tree on success, the
/// error itself on failure.
pub open spec fn parse_result_view(r: Result<Value, ParseError>) -> Result<SpecValue, ParseError> {
    match r {
        Ok(v) => Ok(value_view(v)),
        Err(e) => Err(e),
    }
}

/// Parses `text` as a single document: exactly one value, with nothing
/// but skipped characters after it.
///
/// The result — which tree on which input, and which error otherwise —
/// is fixed by `spec_parse`.
pub fn parse(text: &str) -> (r: Result<Value, ParseError>)
    ensures
        parse_result_view(r) == spec_parse(text@),
{
    let toks = tokenize(text);
    proof {
        crate::lexer::lemma_spec_tokenize_wf(text@);
    }
    match parse_value_at(&toks, 0) {
        Err(e) => Err(e),
        Ok((v, p)) => {
            if p == toks.len() {
                Ok(v)
            } else {
                Err(ParseError::TrailingContent)
            }
        },
    }
}

} // verus!
