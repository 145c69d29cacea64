//! The value model: a closed tagged union for every parseable value, and the
//! decimal type that carries `fl` values as canonical decimal text.

use vstd::prelude::*;

use crate::numbers::{canon_dec, i64_of_text, int_literal};

verus! {

/// An `fl` value: a decimal number held as canonical decimal text (no
/// leading zeros, no trailing fractional zeros, no trailing dot).
#[derive(Debug, Clone, PartialEq)]
pub struct Decimal {
    text: String,
}

impl View for Decimal {
    type V = Seq<char>;

    closed spec fn view(&self) -> Seq<char> {
        self.text@
    }
}

/// What a decimal literal denotes: a text with a dot keeps its digits and is
/// canonicalized; a text without one is read as an integer, with the number
/// decoder's leniency (anything malformed or out of range reads as 0).
pub open spec fn fl_of_text(s: Seq<char>) -> Seq<char> {
    if s.contains('.') {
        canon_dec(s)
    } else {
        int_literal(i64_of_text(s) as int)
    }
}

impl Decimal {
    /// Builds the decimal for a numeric literal.
    pub fn from_literal(s: &str) -> (d: Decimal)
        ensures
            d@ == fl_of_text(s@),
    {
        let n = s.unicode_len();
        let mut has_dot = false;
        let mut i: usize = 0;
        while i < n
            invariant
                i <= n,
                n == s@.len(),
                has_dot == s@.take(i as int).contains('.'),
            decreases n - i,
        {
            let c = s.get_char(i);
            proof {
                let a = s@.take(i as int);
                let b = s@.take(i + 1);
                assert(b =~= a.push(c));
                if b.contains('.') {
                    let k = choose|k: int| 0 <= k < b.len() && b[k] == '.';
                    if k < a.len() {
                        assert(a.contains('.'));
                    }
                }
                if a.contains('.') {
                    let k = choose|k: int| 0 <= k < a.len() && a[k] == '.';
                    assert(b[k] == '.');
                }
                if c == '.' {
                    assert(b[b.len() - 1] == '.');
                }
            }
            if c == '.' {
                has_dot = true;
            }
            i = i + 1;
        }
        proof {
            assert(s@.take(n as int) =~= s@);
        }
        if has_dot {
            let v = crate::numbers::canon_text(s);
            Decimal { text: crate::chars::chars_to_string(&v) }
        } else {
            let n = crate::numbers::text_to_i64(s);
            let v = crate::numbers::i64_to_chars(n);
            Decimal { text: crate::chars::chars_to_string(&v) }
        }
    }

    /// Builds the decimal for an integer value.
    pub fn from_i64(n: i64) -> (d: Decimal)
        ensures
            d@ == int_literal(n as int),
    {
        let v = crate::numbers::i64_to_chars(n);
        Decimal { text: crate::chars::chars_to_string(&v) }
    }

    /// The canonical text, as the serializer prints it.
    pub fn literal(&self) -> (s: &str)
        ensures
            s@ == self@,
    {
        self.text.as_str()
    }
}

/// A parseable value: scalars, four homogeneous list kinds, a nested class,
/// and a dynamic wrapper over a scalar.
#[derive(Debug, PartialEq)]
pub enum Value {
    Bool(bool),
    Num(i64),
    Fl(Decimal),
    Str(String),
    Ml(String),
    Class(Vec<(String, Value)>),
    ListBool(Vec<bool>),
    ListNum(Vec<i64>),
    ListFl(Vec<Decimal>),
    ListStr(Vec<String>),
    Dynamic(Box<Value>),
}

/// The mathematical content of a `Value`: texts as character sequences,
/// integers unbounded, class bodies as ordered key-value sequences.
pub enum ValModel {
    Bool(bool),
    Num(int),
    Fl(Seq<char>),
    Str(Seq<char>),
    Ml(Seq<char>),
    Class(Seq<(Seq<char>, ValModel)>),
    ListBool(Seq<bool>),
    ListNum(Seq<int>),
    ListFl(Seq<Seq<char>>),
    ListStr(Seq<Seq<char>>),
    Dynamic(Box<ValModel>),
}

/// The model of a value.
pub open spec fn vmodel(v: Value) -> ValModel
    decreases v,
{
    match v {
        Value::Bool(b) => ValModel::Bool(b),
        Value::Num(n) => ValModel::Num(n as int),
        Value::Fl(d) => ValModel::Fl(d@),
        Value::Str(s) => ValModel::Str(s@),
        Value::Ml(s) => ValModel::Ml(s@),
        Value::Class(m) => ValModel::Class(entries_model(m@)),
        Value::ListBool(v) => ValModel::ListBool(v@),
        Value::ListNum(v) => ValModel::ListNum(v@.map_values(|x: i64| x as int)),
        Value::ListFl(v) => ValModel::ListFl(v@.map_values(|d: Decimal| d@)),
        Value::ListStr(v) => ValModel::ListStr(v@.map_values(|s: String| s@)),
        Value::Dynamic(b) => ValModel::Dynamic(Box::new(vmodel(*b))),
    }
}

/// The model of a class body or of a whole configuration: each entry's name
/// and value, in order.
pub open spec fn entries_model(m: Seq<(String, Value)>) -> Seq<(Seq<char>, ValModel)>
    decreases m,
{
    if m.len() == 0 {
        Seq::empty()
    } else {
        seq![(m[0].0@, vmodel(m[0].1))] + entries_model(m.drop_first())
    }
}

pub broadcast proof fn lemma_entries_model_len(m: Seq<(String, Value)>)
    ensures
        (#[trigger] entries_model(m)).len() == m.len(),
    decreases m,
{
    if m.len() > 0 {
        lemma_entries_model_len(m.drop_first());
    }
}

pub broadcast proof fn lemma_entries_model_index(m: Seq<(String, Value)>, i: int)
    requires
        0 <= i < m.len(),
    ensures
        #[trigger] entries_model(m)[i] == (m[i].0@, vmodel(m[i].1)),
    decreases m,
{
    lemma_entries_model_len(m);
    if i > 0 {
        lemma_entries_model_index(m.drop_first(), i - 1);
    }
}

pub proof fn lemma_entries_model_push(m: Seq<(String, Value)>, e: (String, Value))
    ensures
        entries_model(m.push(e)) == entries_model(m).push((e.0@, vmodel(e.1))),
    decreases m,
{
    lemma_entries_model_len(m);
    lemma_entries_model_len(m.push(e));
    assert forall|i: int| 0 <= i < m.len() + 1 implies entries_model(m.push(e))[i]
        == entries_model(m).push((e.0@, vmodel(e.1)))[i] by {
        lemma_entries_model_index(m.push(e), i);
        if i < m.len() {
            lemma_entries_model_index(m, i);
            assert(m.push(e)[i] == m[i]);
        } else {
            assert(m.push(e)[i] == e);
        }
    }
    assert(entries_model(m.push(e)) =~= entries_model(m).push((e.0@, vmodel(e.1))));
}

pub proof fn lemma_entries_model_update(m: Seq<(String, Value)>, i: int, e: (String, Value))
    requires
        0 <= i < m.len(),
    ensures
        entries_model(m.update(i, e)) == entries_model(m).update(i, (e.0@, vmodel(e.1))),
{
    lemma_entries_model_len(m);
    lemma_entries_model_len(m.update(i, e));
    assert forall|j: int| 0 <= j < m.len() implies entries_model(m.update(i, e))[j]
        == entries_model(m).update(i, (e.0@, vmodel(e.1)))[j] by {
        lemma_entries_model_index(m.update(i, e), j);
        if j != i {
            lemma_entries_model_index(m, j);
        }
    }
    assert(entries_model(m.update(i, e)) =~= entries_model(m).update(i, (e.0@, vmodel(e.1))));
}

/// Whether a value may be wrapped in `dynamic`: the five scalar kinds only.
pub open spec fn dyn_payload_ok(v: ValModel) -> bool {
    match v {
        ValModel::Bool(_) => true,
        ValModel::Num(_) => true,
        ValModel::Fl(_) => true,
        ValModel::Str(_) => true,
        ValModel::Ml(_) => true,
        _ => false,
    }
}

/// Whether every `Dynamic` wrapper in the tree holds a scalar, so that the
/// tree can be serialized.
pub open spec fn dyn_ok(v: ValModel) -> bool
    decreases v,
{
    match v {
        ValModel::Class(es) => dyn_ok_entries(es),
        ValModel::Dynamic(b) => dyn_payload_ok(*b),
        _ => true,
    }
}

pub open spec fn dyn_ok_entries(es: Seq<(Seq<char>, ValModel)>) -> bool
    decreases es,
{
    es.len() == 0 || (dyn_ok(es[0].1) && dyn_ok_entries(es.drop_first()))
}

pub broadcast proof fn lemma_dyn_ok_entries_index(es: Seq<(Seq<char>, ValModel)>, i: int)
    requires
        0 <= i < es.len(),
        #[trigger] dyn_ok_entries(es),
    ensures
        dyn_ok(#[trigger] es[i].1),
    decreases es,
{
    if i > 0 {
        lemma_dyn_ok_entries_index(es.drop_first(), i - 1);
    }
}

} // verus!
