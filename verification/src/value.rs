//! The parsed document tree and its mathematical model.

use vstd::prelude::*;

verus! {

/// Mathematical model of a document node: text as character sequences,
/// numbers as unbounded integers, children as sequences.
///
/// An object is modelled as the sequence of its key/value pairs in
/// insertion order.
pub enum SpecValue {
    Null,
    Number(int),
    String(Seq<char>),
    Boolean(bool),
    Array(Seq<SpecValue>),
    Object(Seq<(Seq<char>, SpecValue)>),
}

/// A node of a parsed document tree.
///
/// An object keeps its key/value pairs in insertion order; the parser
/// appends each member as it is read.
#[derive(Debug, PartialEq, Eq)]
pub enum Value {
    Null,
    Number(i64),
    String(String),
    Boolean(bool),
    Array(Vec<Value>),
    Object(Vec<(String, Value)>),
}

/// The model of a value tree, computed structurally.
pub open spec fn value_view(v: Value) -> SpecValue
    decreases v,
{
    match v {
        Value::Null => SpecValue::Null,
        Value::Number(n) => SpecValue::Number(n as int),
        Value::String(s) => SpecValue::String(s@),
        Value::Boolean(b) => SpecValue::Boolean(b),
        Value::Array(elems) => SpecValue::Array(
            Seq::new(
                elems@.len(),
                |i: int|
                    if 0 <= i < elems@.len() {
                        value_view(elems@[i])
                    } else {
                        SpecValue::Null
                    },
            ),
        ),
        Value::Object(members) => SpecValue::Object(
            Seq::new(
                members@.len(),
                |i: int|
                    if 0 <= i < members@.len() {
                        (members@[i].0@, value_view(members@[i].1))
                    } else {
                        (Seq::empty(), SpecValue::Null)
                    },
            ),
        ),
    }
}

/// A value the parser can produce: numbers are machine-representable and
/// non-negative (the lexer reads no sign), and no text — string content
/// or object key — contains a double quote (the lexer stops a string at
/// the first one).
pub open spec fn wf_value(v: SpecValue) -> bool
    decreases v, 0int,
{
    match v {
        SpecValue::Null => true,
        SpecValue::Boolean(_) => true,
        SpecValue::Number(n) => 0 <= n <= i64::MAX,
        SpecValue::String(s) => quote_free(s),
        SpecValue::Array(es) => wf_elements(es, 0),
        SpecValue::Object(ms) => wf_members(ms, 0),
    }
}

/// Are the elements from index `i` on well-formed?
pub open spec fn wf_elements(es: Seq<SpecValue>, i: int) -> bool
    decreases es, es.len() - i,
{
    if i < 0 || i >= es.len() {
        true
    } else {
        wf_value(es[i]) && wf_elements(es, i + 1)
    }
}

/// Are the members from index `i` on well-formed, with quote-free keys?
pub open spec fn wf_members(ms: Seq<(Seq<char>, SpecValue)>, i: int) -> bool
    decreases ms, ms.len() - i,
{
    if i < 0 || i >= ms.len() {
        true
    } else {
        quote_free(ms[i].0) && wf_value(ms[i].1) && wf_members(ms, i + 1)
    }
}

/// Does `s` contain no double quote?
pub open spec fn quote_free(s: Seq<char>) -> bool {
    forall|i: int| 0 <= i < s.len() ==> s[i] != '"'
}

/// The models of a sequence of values, element by element.
pub open spec fn values_view(vs: Seq<Value>) -> Seq<SpecValue> {
    Seq::new(vs.len(), |i: int| value_view(vs[i]))
}

/// The models of a sequence of key/value pairs, pair by pair.
pub open spec fn members_view(ms: Seq<(String, Value)>) -> Seq<(Seq<char>, SpecValue)> {
    Seq::new(ms.len(), |i: int| (ms[i].0@, value_view(ms[i].1)))
}

/// Appending a value appends its model.
pub proof fn lemma_values_view_push(vs: Seq<Value>, v: Value)
    ensures
        values_view(vs.push(v)) == values_view(vs).push(value_view(v)),
{
    assert(values_view(vs.push(v)) =~= values_view(vs).push(value_view(v)));
}

/// Appending a pair appends its model.
pub proof fn lemma_members_view_push(ms: Seq<(String, Value)>, m: (String, Value))
    ensures
        members_view(ms.push(m)) == members_view(ms).push((m.0@, value_view(m.1))),
{
    assert(members_view(ms.push(m)) =~= members_view(ms).push((m.0@, value_view(m.1))));
}

/// The model of an array node is the sequence of its elements' models.
pub proof fn lemma_array_view(elems: Vec<Value>)
    ensures
        value_view(Value::Array(elems)) == SpecValue::Array(values_view(elems@)),
{
    assert(value_view(Value::Array(elems))->Array_0 =~= values_view(elems@));
}

/// The model of an object node is the sequence of its members' models.
pub proof fn lemma_object_view(members: Vec<(String, Value)>)
    ensures
        value_view(Value::Object(members)) == SpecValue::Object(members_view(members@)),
{
    assert(value_view(Value::Object(members))->Object_0 =~= members_view(members@));
}

impl View for Value {
    type V = SpecValue;

    open spec fn view(&self) -> SpecValue {
        value_view(*self)
    }
}

} // verus!
