//! The serializer: a value tree back to text.
//!
//! `spec_serialize` fixes the rendering character by character;
//! `toks_of` states which tokens that rendering lexes to, which the
//! round-trip proof relies on.

use crate::digits::dec_digits;
use crate::text::append_chars;
use crate::text::push_char;
use crate::token::SpecToken;
use crate::value::value_view;
use crate::value::values_view;
use crate::value::SpecValue;
use crate::value::Value;
use vstd::prelude::*;

verus! {

broadcast use vstd::std_specs::vec::axiom_vec_index_decreases;

/// The rendering of a value: literals as their words, numbers in
/// decimal (a minus sign before the magnitude if negative), strings
/// between double quotes with no escaping, arrays and objects between
/// brackets and braces with comma-separated entries and no added
/// whitespace.
pub open spec fn spec_serialize(v: SpecValue) -> Seq<char>
    decreases v, 0int,
{
    match v {
        SpecValue::Null => crate::lexer::lit_null(),
        SpecValue::Boolean(b) => if b {
            crate::lexer::lit_true()
        } else {
            crate::lexer::lit_false()
        },
        SpecValue::Number(n) => if n >= 0 {
            dec_digits(n as nat)
        } else {
            seq!['-'] + dec_digits((-n) as nat)
        },
        SpecValue::String(s) => seq!['"'] + s + seq!['"'],
        SpecValue::Array(es) => seq!['['] + ser_elements(es, 0) + seq![']'],
        SpecValue::Object(ms) => seq!['{'] + ser_members(ms, 0) + seq!['}'],
    }
}

/// The rendering of the elements from index `i` on, comma-separated.
pub open spec fn ser_elements(es: Seq<SpecValue>, i: int) -> Seq<char>
    decreases es, es.len() - i,
{
    if i < 0 || i >= es.len() {
        Seq::empty()
    } else if i == es.len() - 1 {
        spec_serialize(es[i])
    } else {
        spec_serialize(es[i]) + seq![','] + ser_elements(es, i + 1)
    }
}

/// The rendering of the members from index `i` on, comma-separated.
pub open spec fn ser_members(ms: Seq<(Seq<char>, SpecValue)>, i: int) -> Seq<char>
    decreases ms, ms.len() - i,
{
    if i < 0 || i >= ms.len() {
        Seq::empty()
    } else if i == ms.len() - 1 {
        ser_member(ms[i].0, spec_serialize(ms[i].1))
    } else {
        ser_member(ms[i].0, spec_serialize(ms[i].1)) + seq![','] + ser_members(ms, i + 1)
    }
}

/// The rendering of one member, given the rendering of its value.
pub open spec fn ser_member(key: Seq<char>, val: Seq<char>) -> Seq<char> {
    seq!['"'] + key + seq!['"'] + seq![':'] + val
}

/// The tokens that the rendering of a value lexes to.
pub open spec fn toks_of(v: SpecValue) -> Seq<SpecToken>
    decreases v, 0int,
{
    match v {
        SpecValue::Null => seq![SpecToken::Null],
        SpecValue::Boolean(b) => seq![SpecToken::Boolean(b)],
        SpecValue::Number(n) => seq![
            SpecToken::Number(dec_digits(if n >= 0 { n } else { -n } as nat)),
        ],
        SpecValue::String(s) => seq![SpecToken::String(s)],
        SpecValue::Array(es) => seq![SpecToken::LeftBracket] + toks_elements(es, 0)
            + seq![SpecToken::RightBracket],
        SpecValue::Object(ms) => seq![SpecToken::LeftBrace] + toks_members(ms, 0)
            + seq![SpecToken::RightBrace],
    }
}

/// The tokens of the elements from index `i` on.
pub open spec fn toks_elements(es: Seq<SpecValue>, i: int) -> Seq<SpecToken>
    decreases es, es.len() - i,
{
    if i < 0 || i >= es.len() {
        Seq::empty()
    } else if i == es.len() - 1 {
        toks_of(es[i])
    } else {
        toks_of(es[i]) + seq![SpecToken::Comma] + toks_elements(es, i + 1)
    }
}

/// The tokens of the members from index `i` on.
pub open spec fn toks_members(ms: Seq<(Seq<char>, SpecValue)>, i: int) -> Seq<SpecToken>
    decreases ms, ms.len() - i,
{
    if i < 0 || i >= ms.len() {
        Seq::empty()
    } else if i == ms.len() - 1 {
        seq![SpecToken::String(ms[i].0), SpecToken::Colon] + toks_of(ms[i].1)
    } else {
        seq![SpecToken::String(ms[i].0), SpecToken::Colon] + toks_of(ms[i].1)
            + seq![SpecToken::Comma] + toks_members(ms, i + 1)
    }
}

/// Renders `v` as text, exactly as `spec_serialize` describes.
pub fn serialize(v: &Value) -> (r: String)
    ensures
        r@ == spec_serialize(v@),
    decreases *v,
{
    match v {
        Value::Null => {
            let r = String::from_str("null");
            proof {
                reveal_strlit("null");
                assert(r@ =~= crate::lexer::lit_null());
            }
            r
        },
        Value::Boolean(b) => {
            if *b {
                let r = String::from_str("true");
                proof {
                    reveal_strlit("true");
                    assert(r@ =~= crate::lexer::lit_true());
                }
                r
            } else {
                let r = String::from_str("false");
                proof {
                    reveal_strlit("false");
                    assert(r@ =~= crate::lexer::lit_false());
                }
                r
            }
        },
        Value::Number(n) => {
            let mut out = String::new();
            if *n >= 0 {
                let ds = crate::digits::u64_to_digits(*n as u64);
                append_chars(&mut out, &ds);
                proof {
                    assert(out@ =~= dec_digits(*n as nat));
                }
            } else {
                push_char(&mut out, '-');
                let m: u64 = if *n == i64::MIN {
                    9223372036854775808u64
                } else {
                    (0 - *n) as u64
                };
                proof {
                    assert(m as nat == (-(*n as int)) as nat);
                }
                let ds = crate::digits::u64_to_digits(m);
                append_chars(&mut out, &ds);
                proof {
                    assert(out@ =~= seq!['-'] + dec_digits((-(*n as int)) as nat));
                }
            }
            out
        },
        Value::String(s) => {
            let mut out = String::new();
            push_char(&mut out, '"');
            out.append(s.as_str());
            push_char(&mut out, '"');
            proof {
                assert(out@ =~= seq!['"'] + s@ + seq!['"']);
            }
            out
        },
        Value::Array(elems) => {
            let ghost es = values_view(elems@);
            proof {
                crate::value::lemma_array_view(*elems);
            }
            let mut out = String::new();
            push_char(&mut out, '[');
            let n = elems.len();
            let mut i: usize = 0;
            proof {
                assert(out@ + ser_elements(es, 0) + seq![']'] =~= seq!['['] + ser_elements(es, 0)
                    + seq![']']);
            }
            while i < n
                invariant
                    *v == Value::Array(*elems),
                    n == elems@.len(),
                    i <= n,
                    es == values_view(elems@),
                    out@ + ser_elements(es, i as int) + seq![']'] == spec_serialize(
                        SpecValue::Array(es),
                    ),
                decreases n - i,
            {
                proof {
                    assert(decreases_to!(*v => (*v)->Array_0));
                    assert(decreases_to!((*v)->Array_0 => (*v)->Array_0@));
                    assert(decreases_to!((*v)->Array_0@ => (*v)->Array_0@[i as int]));
                    assert((*v)->Array_0@[i as int] == elems@[i as int]);
                }
                let piece = serialize(&elems[i]);
                out.append(piece.as_str());
                if i + 1 < n {
                    push_char(&mut out, ',');
                    proof {
                        assert(ser_elements(es, i as int) == spec_serialize(es[i as int])
                            + seq![','] + ser_elements(es, i as int + 1));
                        assert(piece@ == spec_serialize(es[i as int]));
                        assert(out@ + ser_elements(es, i as int + 1) =~= (out@ + ser_elements(
                            es,
                            i as int + 1,
                        ) + seq![']']).take((out@ + ser_elements(es, i as int + 1)).len() as int));
                        assert(out@ + ser_elements(es, i as int + 1) + seq![']'] =~= spec_serialize(
                            SpecValue::Array(es),
                        ));
                    }
                } else {
                    proof {
                        assert(ser_elements(es, i as int) == spec_serialize(es[i as int]));
                        assert(piece@ == spec_serialize(es[i as int]));
                        assert(ser_elements(es, i as int + 1) =~= Seq::<char>::empty());
                        assert(out@ + ser_elements(es, i as int + 1) + seq![']'] =~= spec_serialize(
                            SpecValue::Array(es),
                        ));
                    }
                }
                i += 1;
            }
            push_char(&mut out, ']');
            proof {
                assert(ser_elements(es, n as int) =~= Seq::<char>::empty());
                assert(out@ =~= spec_serialize(SpecValue::Array(es)));
            }
            out
        },
        Value::Object(members) => {
            let ghost mv = crate::value::members_view(members@);
            proof {
                crate::value::lemma_object_view(*members);
            }
            let mut out = String::new();
            push_char(&mut out, '{');
            let n = members.len();
            let mut i: usize = 0;
            proof {
                assert(out@ + ser_members(mv, 0) + seq!['}'] =~= seq!['{'] + ser_members(mv, 0)
                    + seq!['}']);
            }
            while i < n
                invariant
                    *v == Value::Object(*members),
                    n == members@.len(),
                    i <= n,
                    mv == crate::value::members_view(members@),
                    out@ + ser_members(mv, i as int) + seq!['}'] == spec_serialize(
                        SpecValue::Object(mv),
                    ),
                decreases n - i,
            {
                proof {
                    assert(decreases_to!(*v => (*v)->Object_0));
                    assert(decreases_to!((*v)->Object_0 => (*v)->Object_0@));
                    assert(decreases_to!((*v)->Object_0@ => (*v)->Object_0@[i as int]));
                    assert(decreases_to!((*v)->Object_0@[i as int] => (*v)->Object_0@[i as int].1));
                    assert((*v)->Object_0@[i as int].1 == members@[i as int].1);
                }
                let pair = &members[i];
                push_char(&mut out, '"');
                out.append(pair.0.as_str());
                push_char(&mut out, '"');
                push_char(&mut out, ':');
                let piece = serialize(&pair.1);
                out.append(piece.as_str());
                proof {
                    assert(mv[i as int] == (members@[i as int].0@, value_view(
                        members@[i as int].1,
                    )));
                    assert(piece@ == spec_serialize(mv[i as int].1));
                }
                if i + 1 < n {
                    push_char(&mut out, ',');
                    proof {
                        assert(ser_members(mv, i as int) == ser_member(
                            mv[i as int].0,
                            spec_serialize(mv[i as int].1),
                        ) + seq![','] + ser_members(mv, i as int + 1));
                        assert(out@ + ser_members(mv, i as int + 1) + seq!['}'] =~= spec_serialize(
                            SpecValue::Object(mv),
                        ));
                    }
                } else {
                    proof {
                        assert(ser_members(mv, i as int) == ser_member(
                            mv[i as int].0,
                            spec_serialize(mv[i as int].1),
                        ));
                        assert(out@ + ser_members(mv, i as int + 1) + seq!['}'] =~= spec_serialize(
                            SpecValue::Object(mv),
                        ));
                    }
                }
                i += 1;
            }
            push_char(&mut out, '}');
            proof {
                assert(ser_members(mv, n as int) =~= Seq::<char>::empty());
                assert(out@ =~= spec_serialize(SpecValue::Object(mv)));
            }
            out
        },
    }
}

} // verus!
