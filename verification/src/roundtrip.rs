//! The round trip: serializing a well-formed value and lexing and
//! parsing the text again gives the same value back.
//!
//! The proof goes in two halves. First, the rendering of a well-formed
//! value lexes to exactly `toks_of` of it, one lexeme at a time.
//! Second, the spec parser consumes `toks_of` of a well-formed value and
//! returns the value. The public laws at the end put the halves
//! together.

use crate::digits::dec_digits;
use crate::digits::digits_val;
use crate::digits::is_digit_char;
use crate::digits::lemma_dec_digits_val;
use crate::lexer::begins_with;
use crate::lexer::lemma_begins_with_chars;
use crate::lexer::lemma_digit_run_eq;
use crate::lexer::lemma_quote_pos_eq;
use crate::lexer::lit_false;
use crate::lexer::lit_null;
use crate::lexer::lit_true;
use crate::lexer::spec_tokenize;
use crate::parser::sp_elements;
use crate::parser::sp_members;
use crate::parser::sp_value;
use crate::parser::spec_parse;
use crate::ser::ser_elements;
use crate::ser::ser_members;
use crate::ser::spec_serialize;
use crate::ser::toks_elements;
use crate::ser::toks_members;
use crate::ser::toks_of;
use crate::token::ParseError;
use crate::token::SpecToken;
use crate::value::quote_free;
use crate::value::wf_elements;
use crate::value::wf_members;
use crate::value::wf_value;
use crate::value::SpecValue;
use vstd::prelude::*;

verus! {

/// The token of a single punctuation character.
spec fn punct_token(c: char) -> SpecToken {
    if c == '[' {
        SpecToken::LeftBracket
    } else if c == ']' {
        SpecToken::RightBracket
    } else if c == '{' {
        SpecToken::LeftBrace
    } else if c == '}' {
        SpecToken::RightBrace
    } else if c == ':' {
        SpecToken::Colon
    } else {
        SpecToken::Comma
    }
}

/// Lexing text that starts with a punctuation character emits its token
/// and goes on with the rest.
proof fn lemma_tok_punct(c: char, rest: Seq<char>)
    requires
        c == '[' || c == ']' || c == '{' || c == '}' || c == ':' || c == ',',
    ensures
        spec_tokenize(seq![c] + rest) == seq![punct_token(c)] + spec_tokenize(rest),
{
    let s = seq![c] + rest;
    assert(s[0] == c);
    assert(!begins_with(s, lit_null())) by {
        if begins_with(s, lit_null()) {
            lemma_begins_with_chars(s, lit_null());
        }
    }
    assert(!begins_with(s, lit_true())) by {
        if begins_with(s, lit_true()) {
            lemma_begins_with_chars(s, lit_true());
        }
    }
    assert(!begins_with(s, lit_false())) by {
        if begins_with(s, lit_false()) {
            lemma_begins_with_chars(s, lit_false());
        }
    }
    assert(s.skip(1) =~= rest);
}

/// Lexing text that starts with the literal `null`.
proof fn lemma_tok_null(rest: Seq<char>)
    ensures
        spec_tokenize(lit_null() + rest) == seq![SpecToken::Null] + spec_tokenize(rest),
{
    let s = lit_null() + rest;
    assert(s[0] == 'n');
    assert(begins_with(s, lit_null())) by {
        assert(s.take(4) =~= lit_null());
    }
    assert(s.skip(4) =~= rest);
}

/// Lexing text that starts with the literal `true`.
proof fn lemma_tok_true(rest: Seq<char>)
    ensures
        spec_tokenize(lit_true() + rest) == seq![SpecToken::Boolean(true)] + spec_tokenize(rest),
{
    let s = lit_true() + rest;
    assert(s[0] == 't');
    assert(!begins_with(s, lit_null())) by {
        if begins_with(s, lit_null()) {
            lemma_begins_with_chars(s, lit_null());
        }
    }
    assert(begins_with(s, lit_true())) by {
        assert(s.take(4) =~= lit_true());
    }
    assert(s.skip(4) =~= rest);
}

/// Lexing text that starts with the literal `false`.
proof fn lemma_tok_false(rest: Seq<char>)
    ensures
        spec_tokenize(lit_false() + rest) == seq![SpecToken::Boolean(false)] + spec_tokenize(rest),
{
    let s = lit_false() + rest;
    assert(s[0] == 'f');
    assert(!begins_with(s, lit_null())) by {
        if begins_with(s, lit_null()) {
            lemma_begins_with_chars(s, lit_null());
        }
    }
    assert(!begins_with(s, lit_true())) by {
        if begins_with(s, lit_true()) {
            lemma_begins_with_chars(s, lit_true());
        }
    }
    assert(begins_with(s, lit_false())) by {
        assert(s.take(5) =~= lit_false());
    }
    assert(s.skip(5) =~= rest);
}

/// Lexing text that starts with a digit run, not extended by what
/// follows, emits one number token holding exactly that run.
proof fn lemma_tok_number(ds: Seq<char>, rest: Seq<char>)
    requires
        ds.len() >= 1,
        forall|j: int| 0 <= j < ds.len() ==> is_digit_char(#[trigger] ds[j]),
        rest.len() == 0 || !is_digit_char(rest[0]),
    ensures
        spec_tokenize(ds + rest) == seq![SpecToken::Number(ds)] + spec_tokenize(rest),
{
    let s = ds + rest;
    assert(s[0] == ds[0]);
    assert forall|j: int| 0 <= j < ds.len() implies is_digit_char(s[j]) by {
        assert(s[j] == ds[j]);
    }
    assert(ds.len() == s.len() || !is_digit_char(s[ds.len() as int])) by {
        if (ds.len() as int) < s.len() {
            assert(s[ds.len() as int] == rest[0]);
        }
    }
    lemma_digit_run_eq(s, ds.len() as int);
    assert(s.take(ds.len() as int) =~= ds);
    assert(s.skip(ds.len() as int) =~= rest);
}

/// Lexing text that starts with a quoted, quote-free string emits one
/// string token holding its content.
proof fn lemma_tok_string(content: Seq<char>, rest: Seq<char>)
    requires
        quote_free(content),
    ensures
        spec_tokenize(seq!['"'] + content + seq!['"'] + rest) == seq![SpecToken::String(content)]
            + spec_tokenize(rest),
{
    let s = seq!['"'] + content + seq!['"'] + rest;
    assert(s[0] == '"');
    let r2 = s.skip(1);
    assert(r2 =~= content + seq!['"'] + rest);
    let q = content.len() as int;
    assert(r2[q] == '"');
    assert forall|j: int| 0 <= j < q implies r2[j] != '"' by {
        assert(r2[j] == content[j]);
    }
    lemma_quote_pos_eq(r2, q);
    assert(r2.take(q) =~= content);
    assert(r2.skip(q + 1) =~= rest);
}

/// The rendering of a well-formed value lexes to its tokens, whatever
/// follows, as long as what follows cannot extend a digit run.
proof fn lemma_tokenize_ser_value(v: SpecValue, rest: Seq<char>)
    requires
        wf_value(v),
        rest.len() == 0 || !is_digit_char(rest[0]),
    ensures
        spec_tokenize(spec_serialize(v) + rest) == toks_of(v) + spec_tokenize(rest),
    decreases v, 0int,
{
    match v {
        SpecValue::Null => {
            assert(spec_serialize(v) + rest =~= lit_null() + rest);
            lemma_tok_null(rest);
        },
        SpecValue::Boolean(b) => {
            if b {
                assert(spec_serialize(v) + rest =~= lit_true() + rest);
                lemma_tok_true(rest);
            } else {
                assert(spec_serialize(v) + rest =~= lit_false() + rest);
                lemma_tok_false(rest);
            }
        },
        SpecValue::Number(n) => {
            lemma_dec_digits_val(n as nat);
            assert(spec_serialize(v) + rest =~= dec_digits(n as nat) + rest);
            lemma_tok_number(dec_digits(n as nat), rest);
        },
        SpecValue::String(t) => {
            assert(spec_serialize(v) + rest =~= seq!['"'] + t + seq!['"'] + rest);
            lemma_tok_string(t, rest);
        },
        SpecValue::Array(es) => {
            let inner = ser_elements(es, 0) + (seq![']'] + rest);
            assert(spec_serialize(v) + rest =~= seq!['['] + inner);
            lemma_tok_punct('[', inner);
            if es.len() == 0 {
                assert(inner =~= seq![']'] + rest);
                lemma_tok_punct(']', rest);
                assert(toks_of(v) =~= seq![SpecToken::LeftBracket, SpecToken::RightBracket]);
                assert(seq![punct_token('[')] + (seq![punct_token(']')] + spec_tokenize(rest))
                    =~= toks_of(v) + spec_tokenize(rest));
            } else {
                let close = seq![']'] + rest;
                assert(inner =~= ser_elements(es, 0) + close);
                lemma_tokenize_ser_elements(es, 0, close);
                lemma_tok_punct(']', rest);
                assert(seq![punct_token('[')] + (toks_elements(es, 0) + (seq![punct_token(']')]
                    + spec_tokenize(rest))) =~= toks_of(v) + spec_tokenize(rest));
            }
        },
        SpecValue::Object(ms) => {
            let inner = ser_members(ms, 0) + (seq!['}'] + rest);
            assert(spec_serialize(v) + rest =~= seq!['{'] + inner);
            lemma_tok_punct('{', inner);
            if ms.len() == 0 {
                assert(inner =~= seq!['}'] + rest);
                lemma_tok_punct('}', rest);
                assert(toks_of(v) =~= seq![SpecToken::LeftBrace, SpecToken::RightBrace]);
                assert(seq![punct_token('{')] + (seq![punct_token('}')] + spec_tokenize(rest))
                    =~= toks_of(v) + spec_tokenize(rest));
            } else {
                let close = seq!['}'] + rest;
                assert(inner =~= ser_members(ms, 0) + close);
                lemma_tokenize_ser_members(ms, 0, close);
                lemma_tok_punct('}', rest);
                assert(seq![punct_token('{')] + (toks_members(ms, 0) + (seq![punct_token('}')]
                    + spec_tokenize(rest))) =~= toks_of(v) + spec_tokenize(rest));
            }
        },
    }
}

/// As `lemma_tokenize_ser_value`, for the elements from index `i` on.
proof fn lemma_tokenize_ser_elements(es: Seq<SpecValue>, i: int, rest: Seq<char>)
    requires
        0 <= i < es.len(),
        wf_elements(es, i),
        rest.len() == 0 || !is_digit_char(rest[0]),
    ensures
        spec_tokenize(ser_elements(es, i) + rest) == toks_elements(es, i) + spec_tokenize(rest),
    decreases es, es.len() - i,
{
    if i == es.len() - 1 {
        lemma_tokenize_ser_value(es[i], rest);
    } else {
        let tail = ser_elements(es, i + 1) + rest;
        let r3 = seq![','] + tail;
        assert(ser_elements(es, i) + rest =~= spec_serialize(es[i]) + r3);
        lemma_tokenize_ser_value(es[i], r3);
        lemma_tok_punct(',', tail);
        lemma_tokenize_ser_elements(es, i + 1, rest);
        assert(toks_of(es[i]) + (seq![punct_token(',')] + (toks_elements(es, i + 1)
            + spec_tokenize(rest))) =~= toks_elements(es, i) + spec_tokenize(rest));
    }
}

/// As `lemma_tokenize_ser_value`, for the members from index `i` on.
proof fn lemma_tokenize_ser_members(ms: Seq<(Seq<char>, SpecValue)>, i: int, rest: Seq<char>)
    requires
        0 <= i < ms.len(),
        wf_members(ms, i),
        rest.len() == 0 || !is_digit_char(rest[0]),
    ensures
        spec_tokenize(ser_members(ms, i) + rest) == toks_members(ms, i) + spec_tokenize(rest),
    decreases ms, ms.len() - i,
{
    let k = ms[i].0;
    let w = ms[i].1;
    let tail0 = if i == ms.len() - 1 {
        rest
    } else {
        seq![','] + (ser_members(ms, i + 1) + rest)
    };
    let after_colon = spec_serialize(w) + tail0;
    let after_key = seq![':'] + after_colon;
    assert(ser_members(ms, i) + rest =~= seq!['"'] + k + seq!['"'] + after_key);
    lemma_tok_string(k, after_key);
    lemma_tok_punct(':', after_colon);
    lemma_tokenize_ser_value(w, tail0);
    if i == ms.len() - 1 {
        assert(seq![SpecToken::String(k)] + (seq![punct_token(':')] + (toks_of(w)
            + spec_tokenize(rest))) =~= toks_members(ms, i) + spec_tokenize(rest));
    } else {
        let tail = ser_members(ms, i + 1) + rest;
        lemma_tok_punct(',', tail);
        lemma_tokenize_ser_members(ms, i + 1, rest);
        assert(seq![SpecToken::String(k)] + (seq![punct_token(':')] + (toks_of(w) + (seq![
            punct_token(','),
        ] + (toks_members(ms, i + 1) + spec_tokenize(rest))))) =~= toks_members(ms, i)
            + spec_tokenize(rest));
    }
}

/// The tokens of a value start with a token that can start a value.
proof fn lemma_toks_of_first(w: SpecValue)
    ensures
        toks_of(w).len() >= 1,
        toks_of(w)[0] is Null || toks_of(w)[0] is Boolean || toks_of(w)[0] is Number || toks_of(
            w,
        )[0] is String || toks_of(w)[0] is LeftBracket || toks_of(w)[0] is LeftBrace,
{
    match w {
        SpecValue::Array(es) => {
            assert(toks_of(w)[0] == SpecToken::LeftBracket);
        },
        SpecValue::Object(ms) => {
            assert(toks_of(w)[0] == SpecToken::LeftBrace);
        },
        _ => {},
    }
}

/// Elements that are each well-formed form a well-formed element list.
proof fn lemma_wf_elements_all(es: Seq<SpecValue>, i: int)
    requires
        0 <= i,
        forall|j: int| i <= j < es.len() ==> wf_value(#[trigger] es[j]),
    ensures
        wf_elements(es, i),
    decreases es.len() - i,
{
    if i < es.len() {
        lemma_wf_elements_all(es, i + 1);
    }
}

/// Members that are each well-formed, with quote-free keys, form a
/// well-formed member list.
proof fn lemma_wf_members_all(ms: Seq<(Seq<char>, SpecValue)>, i: int)
    requires
        0 <= i,
        forall|j: int|
            i <= j < ms.len() ==> quote_free(#[trigger] ms[j].0) && wf_value(ms[j].1),
    ensures
        wf_members(ms, i),
    decreases ms.len() - i,
{
    if i < ms.len() {
        assert(quote_free(ms[i].0) && wf_value(ms[i].1));
        lemma_wf_members_all(ms, i + 1);
    }
}

/// What the spec parser returns is well-formed, given well-formed
/// tokens.
proof fn lemma_sp_value_wf(ts: Seq<SpecToken>, pos: int)
    requires
        crate::lexer::tokens_wf(ts),
    ensures
        sp_value(ts, pos) matches Ok((v, p2)) ==> wf_value(v),
    decreases ts.len() - pos, 0int,
{
    if 0 <= pos < ts.len() {
        assert(crate::lexer::token_wf(ts[pos]));
        match ts[pos] {
            SpecToken::LeftBracket => {
                if pos + 1 < ts.len() && !(ts[pos + 1] is RightBracket) {
                    lemma_sp_elements_wf(ts, pos + 1, Seq::empty());
                }
            },
            SpecToken::LeftBrace => {
                if pos + 1 < ts.len() && !(ts[pos + 1] is RightBrace) {
                    lemma_sp_members_wf(ts, pos + 1, Seq::empty());
                }
            },
            _ => {},
        }
    }
}

/// As `lemma_sp_value_wf`, for an element list with well-formed
/// elements read so far.
proof fn lemma_sp_elements_wf(ts: Seq<SpecToken>, pos: int, acc: Seq<SpecValue>)
    requires
        crate::lexer::tokens_wf(ts),
        forall|j: int| 0 <= j < acc.len() ==> wf_value(#[trigger] acc[j]),
    ensures
        sp_elements(ts, pos, acc) matches Ok((v, p2)) ==> wf_value(v),
    decreases ts.len() - pos, 1int,
{
    lemma_sp_value_wf(ts, pos);
    match sp_value(ts, pos) {
        Err(_) => {},
        Ok((v, p2)) => {
            if p2 < ts.len() {
                assert forall|j: int| 0 <= j < acc.push(v).len() implies wf_value(
                    acc.push(v)[j],
                ) by {
                    if j < acc.len() {
                        assert(acc.push(v)[j] == acc[j]);
                    }
                }
                if ts[p2] is Comma && pos < p2 {
                    lemma_sp_elements_wf(ts, p2 + 1, acc.push(v));
                } else if ts[p2] is RightBracket {
                    lemma_wf_elements_all(acc.push(v), 0);
                }
            }
        },
    }
}

/// As `lemma_sp_value_wf`, for a member list with well-formed members
/// read so far.
proof fn lemma_sp_members_wf(ts: Seq<SpecToken>, pos: int, acc: Seq<(Seq<char>, SpecValue)>)
    requires
        crate::lexer::tokens_wf(ts),
        forall|j: int|
            0 <= j < acc.len() ==> quote_free(#[trigger] acc[j].0) && wf_value(acc[j].1),
    ensures
        sp_members(ts, pos, acc) matches Ok((v, p2)) ==> wf_value(v),
    decreases ts.len() - pos, 1int,
{
    if 0 <= pos < ts.len() {
        assert(crate::lexer::token_wf(ts[pos]));
        match ts[pos] {
            SpecToken::String(k) => {
                if pos + 1 < ts.len() && ts[pos + 1] is Colon {
                    lemma_sp_value_wf(ts, pos + 2);
                    match sp_value(ts, pos + 2) {
                        Err(_) => {},
                        Ok((v, p2)) => {
                            if p2 < ts.len() {
                                assert forall|j: int| 0 <= j < acc.push((k, v)).len() implies
                                    quote_free(acc.push((k, v))[j].0) && wf_value(
                                    acc.push((k, v))[j].1,
                                ) by {
                                    if j < acc.len() {
                                        assert(acc.push((k, v))[j] == acc[j]);
                                    }
                                }
                                if ts[p2] is Comma && pos < p2 {
                                    lemma_sp_members_wf(ts, p2 + 1, acc.push((k, v)));
                                } else if ts[p2] is RightBrace {
                                    lemma_wf_members_all(acc.push((k, v)), 0);
                                }
                            }
                        },
                    }
                }
            },
            _ => {},
        }
    }
}

/// The spec parser, fed the tokens of a well-formed value, returns that
/// value and stops just past its tokens.
proof fn lemma_parse_toks_value(ts: Seq<SpecToken>, pos: int, v: SpecValue)
    requires
        wf_value(v),
        0 <= pos,
        pos + toks_of(v).len() <= ts.len(),
        ts.subrange(pos, pos + toks_of(v).len()) == toks_of(v),
    ensures
        sp_value(ts, pos) == Ok::<(SpecValue, int), ParseError>((v, pos + toks_of(v).len())),
    decreases v, 0int,
{
    let tk = toks_of(v);
    assert forall|j: int| 0 <= j < tk.len() implies ts[pos + j] == tk[j] by {
        assert(ts.subrange(pos, pos + tk.len() as int)[j] == ts[pos + j]);
    }
    match v {
        SpecValue::Null => {},
        SpecValue::Boolean(b) => {},
        SpecValue::String(t) => {},
        SpecValue::Number(n) => {
            lemma_dec_digits_val(n as nat);
            assert(ts[pos] == SpecToken::Number(dec_digits(n as nat)));
            assert(digits_val(dec_digits(n as nat)) == n as nat);
        },
        SpecValue::Array(es) => {
            let inner = toks_elements(es, 0);
            let l = inner.len() as int;
            assert(tk[0] == SpecToken::LeftBracket);
            if es.len() == 0 {
                assert(tk =~= seq![SpecToken::LeftBracket, SpecToken::RightBracket]);
                assert(ts[pos + 1] == SpecToken::RightBracket);
                assert(es =~= Seq::<SpecValue>::empty());
            } else {
                lemma_toks_of_first(es[0]);
                assert(inner[0] == toks_of(es[0])[0]);
                assert(tk[1] == inner[0]);
                assert(!(ts[pos + 1] is RightBracket));
                assert forall|j: int| 0 <= j < l implies ts[pos + 1 + j] == inner[j] by {
                    assert(tk[1 + j] == inner[j]);
                }
                assert(ts.subrange(pos + 1, pos + 1 + l) =~= inner);
                assert(tk[1 + l] == SpecToken::RightBracket);
                lemma_parse_toks_elements(ts, pos + 1, es, 0, Seq::empty());
                assert(Seq::empty() + es.skip(0) =~= es);
            }
        },
        SpecValue::Object(ms) => {
            let inner = toks_members(ms, 0);
            let l = inner.len() as int;
            assert(tk[0] == SpecToken::LeftBrace);
            if ms.len() == 0 {
                assert(tk =~= seq![SpecToken::LeftBrace, SpecToken::RightBrace]);
                assert(ts[pos + 1] == SpecToken::RightBrace);
                assert(ms =~= Seq::<(Seq<char>, SpecValue)>::empty());
            } else {
                assert(inner[0] == SpecToken::String(ms[0].0));
                assert(tk[1] == inner[0]);
                assert(!(ts[pos + 1] is RightBrace));
                assert forall|j: int| 0 <= j < l implies ts[pos + 1 + j] == inner[j] by {
                    assert(tk[1 + j] == inner[j]);
                }
                assert(ts.subrange(pos + 1, pos + 1 + l) =~= inner);
                assert(tk[1 + l] == SpecToken::RightBrace);
                lemma_parse_toks_members(ts, pos + 1, ms, 0, Seq::empty());
                assert(Seq::empty() + ms.skip(0) =~= ms);
            }
        },
    }
}

/// As `lemma_parse_toks_value`, for the elements from index `i` on,
/// with a closing bracket just past them.
proof fn lemma_parse_toks_elements(
    ts: Seq<SpecToken>,
    pos: int,
    es: Seq<SpecValue>,
    i: int,
    acc: Seq<SpecValue>,
)
    requires
        0 <= i < es.len(),
        wf_elements(es, i),
        0 <= pos,
        pos + toks_elements(es, i).len() + 1 <= ts.len(),
        ts.subrange(pos, pos + toks_elements(es, i).len()) == toks_elements(es, i),
        ts[pos + toks_elements(es, i).len()] is RightBracket,
    ensures
        sp_elements(ts, pos, acc) == Ok::<(SpecValue, int), ParseError>(
            (SpecValue::Array(acc + es.skip(i)), pos + toks_elements(es, i).len() + 1),
        ),
    decreases es, es.len() - i,
{
    let te = toks_elements(es, i);
    let l = te.len() as int;
    let k = toks_of(es[i]).len() as int;
    lemma_toks_of_first(es[i]);
    assert forall|j: int| 0 <= j < l implies ts[pos + j] == te[j] by {
        assert(ts.subrange(pos, pos + l)[j] == ts[pos + j]);
    }
    assert forall|j: int| 0 <= j < k implies ts[pos + j] == toks_of(es[i])[j] by {
        assert(te[j] == toks_of(es[i])[j]);
    }
    assert(ts.subrange(pos, pos + k) =~= toks_of(es[i]));
    lemma_parse_toks_value(ts, pos, es[i]);
    if i == es.len() - 1 {
        assert(ts[pos + k] is RightBracket);
        assert(acc.push(es[i]) =~= acc + es.skip(i)) by {
            assert(es.skip(i) =~= seq![es[i]]);
        }
    } else {
        let l2 = toks_elements(es, i + 1).len() as int;
        assert(te[k] == SpecToken::Comma);
        assert(ts[pos + k] is Comma);
        assert forall|j: int| 0 <= j < l2 implies ts[pos + k + 1 + j] == #[trigger] toks_elements(
            es,
            i + 1,
        )[j] by {
            assert(te[k + 1 + j] == toks_elements(es, i + 1)[j]);
        }
        assert(ts.subrange(pos + k + 1, pos + k + 1 + l2) =~= toks_elements(es, i + 1));
        assert(ts[pos + k + 1 + l2] is RightBracket);
        lemma_parse_toks_elements(ts, pos + k + 1, es, i + 1, acc.push(es[i]));
        assert(acc.push(es[i]) + es.skip(i + 1) =~= acc + es.skip(i));
    }
}

/// As `lemma_parse_toks_value`, for the members from index `i` on,
/// with a closing brace just past them.
proof fn lemma_parse_toks_members(
    ts: Seq<SpecToken>,
    pos: int,
    ms: Seq<(Seq<char>, SpecValue)>,
    i: int,
    acc: Seq<(Seq<char>, SpecValue)>,
)
    requires
        0 <= i < ms.len(),
        wf_members(ms, i),
        0 <= pos,
        pos + toks_members(ms, i).len() + 1 <= ts.len(),
        ts.subrange(pos, pos + toks_members(ms, i).len()) == toks_members(ms, i),
        ts[pos + toks_members(ms, i).len()] is RightBrace,
    ensures
        sp_members(ts, pos, acc) == Ok::<(SpecValue, int), ParseError>(
            (SpecValue::Object(acc + ms.skip(i)), pos + toks_members(ms, i).len() + 1),
        ),
    decreases ms, ms.len() - i,
{
    let tm = toks_members(ms, i);
    let l = tm.len() as int;
    let k = toks_of(ms[i].1).len() as int;
    assert forall|j: int| 0 <= j < l implies ts[pos + j] == tm[j] by {
        assert(ts.subrange(pos, pos + l)[j] == ts[pos + j]);
    }
    assert(tm[0] == SpecToken::String(ms[i].0));
    assert(tm[1] == SpecToken::Colon);
    assert forall|j: int| 0 <= j < k implies ts[pos + 2 + j] == toks_of(ms[i].1)[j] by {
        assert(tm[2 + j] == toks_of(ms[i].1)[j]);
    }
    assert(ts.subrange(pos + 2, pos + 2 + k) =~= toks_of(ms[i].1));
    lemma_parse_toks_value(ts, pos + 2, ms[i].1);
    assert((ms[i].0, ms[i].1) == ms[i]);
    if i == ms.len() - 1 {
        assert(ts[pos + 2 + k] is RightBrace);
        assert(acc.push(ms[i]) =~= acc + ms.skip(i)) by {
            assert(ms.skip(i) =~= seq![ms[i]]);
        }
    } else {
        let l2 = toks_members(ms, i + 1).len() as int;
        assert(tm[2 + k] == SpecToken::Comma);
        assert(ts[pos + 2 + k] is Comma);
        assert forall|j: int| 0 <= j < l2 implies ts[pos + 2 + k + 1 + j] == #[trigger] toks_members(
            ms,
            i + 1,
        )[j] by {
            assert(tm[2 + k + 1 + j] == toks_members(ms, i + 1)[j]);
        }
        assert(ts.subrange(pos + 2 + k + 1, pos + 2 + k + 1 + l2) =~= toks_members(ms, i + 1));
        assert(ts[pos + 2 + k + 1 + l2] is RightBrace);
        lemma_parse_toks_members(ts, pos + 2 + k + 1, ms, i + 1, acc.push(ms[i]));
        assert(acc.push(ms[i]) + ms.skip(i + 1) =~= acc + ms.skip(i));
    }
}

/// Whatever `parse` accepts is well-formed: its numbers fit in an
/// `i64` and are non-negative, and none of its texts contains a double
/// quote.
pub proof fn lemma_parse_wf(s: Seq<char>, v: SpecValue)
    requires
        spec_parse(s) == Ok::<SpecValue, ParseError>(v),
    ensures
        wf_value(v),
{
    crate::lexer::lemma_spec_tokenize_wf(s);
    lemma_sp_value_wf(spec_tokenize(s), 0);
}

/// Serializing a well-formed value and parsing the text again yields
/// the value itself.
pub proof fn lemma_serialize_parse(v: SpecValue)
    requires
        wf_value(v),
    ensures
        spec_parse(spec_serialize(v)) == Ok::<SpecValue, ParseError>(v),
{
    lemma_tokenize_ser_value(v, Seq::empty());
    assert(spec_serialize(v) + Seq::empty() =~= spec_serialize(v));
    let ts = toks_of(v);
    assert(spec_tokenize(spec_serialize(v)) =~= ts) by {
        assert(spec_tokenize(Seq::empty()) =~= Seq::<SpecToken>::empty());
    }
    assert(ts.subrange(0, ts.len() as int) =~= ts);
    lemma_parse_toks_value(ts, 0, v);
}

/// Round trip: a value that `parse` returned is parsed back from its
/// own serialization, unchanged.
pub proof fn lemma_round_trip(s: Seq<char>, v: SpecValue)
    requires
        spec_parse(s) == Ok::<SpecValue, ParseError>(v),
    ensures
        spec_parse(spec_serialize(v)) == Ok::<SpecValue, ParseError>(v),
{
    lemma_parse_wf(s, v);
    lemma_serialize_parse(v);
}

} // verus!
