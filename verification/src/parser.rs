//! The parser: consumes the token sequence (newlines and comments filtered
//! out) and builds a mapping from declaration names to values, or fails with
//! a syntax error naming the expected and the found token.
//!
//! The spec functions in this module define the grammar over token models;
//! `Parser::parse` is proved to return exactly their result.

use vstd::prelude::*;

use crate::errors::{err_at, ErrModel, SyntaxError};
use crate::numbers::{i64_of_text, int_literal};
use crate::tokens::{toks_model, TokModel, Token, TokenType};
use crate::value::{entries_model, fl_of_text, vmodel, ValModel, Value};

verus! {

broadcast use crate::tokens::lemma_toks_model_len, crate::tokens::lemma_toks_model_index;

/// The tokens the parser sees: newlines and comments carry no meaning to the
/// grammar and are dropped.
pub open spec fn keep_tok(t: TokModel) -> bool {
    t.kind != TokenType::Newline && t.kind != TokenType::Comment
}

/// The token sequence with newlines and comments filtered out.
pub open spec fn filtered(ts: Seq<TokModel>) -> Seq<TokModel>
    decreases ts.len(),
{
    if ts.len() == 0 {
        Seq::empty()
    } else if keep_tok(ts.last()) {
        filtered(ts.drop_last()).push(ts.last())
    } else {
        filtered(ts.drop_last())
    }
}

/// The token under the cursor; past the end, the last token.
pub open spec fn cur_of(toks: Seq<TokModel>, pos: int) -> TokModel {
    if 0 <= pos < toks.len() {
        toks[pos]
    } else {
        toks[toks.len() - 1]
    }
}

/// A token's text, the empty text when it carries none.
pub open spec fn ttext(t: TokModel) -> Seq<char> {
    match t.text {
        Some(s) => s,
        None => Seq::empty(),
    }
}

/// The name of a token kind, as error messages spell it.
pub open spec fn kind_str(t: TokenType) -> Seq<char> {
    match t {
        TokenType::Identifier => "Identifier"@,
        TokenType::DoubleColon => "DoubleColon"@,
        TokenType::BoolKw => "BoolKw"@,
        TokenType::StrKw => "StrKw"@,
        TokenType::NumKw => "NumKw"@,
        TokenType::FlKw => "FlKw"@,
        TokenType::MlKw => "MlKw"@,
        TokenType::ClassKw => "ClassKw"@,
        TokenType::ListKw => "ListKw"@,
        TokenType::DynamicKw => "DynamicKw"@,
        TokenType::LBrace => "LBrace"@,
        TokenType::RBrace => "RBrace"@,
        TokenType::LParen => "LParen"@,
        TokenType::RParen => "RParen"@,
        TokenType::Comma => "Comma"@,
        TokenType::String => "String"@,
        TokenType::MultilineString => "MultilineString"@,
        TokenType::Number => "Number"@,
        TokenType::Float => "Float"@,
        TokenType::Boolean => "Boolean"@,
        TokenType::Comment => "Comment"@,
        TokenType::Newline => "Newline"@,
        TokenType::Eof => "Eof"@,
    }
}

/// A token's text as error messages show it: its option rendered literally.
pub open spec fn dbg_opt(o: Option<Seq<char>>) -> Seq<char> {
    match o {
        Some(s) => "Some(\""@ + s + "\")"@,
        None => "None"@,
    }
}

/// The error for an unexpected token kind.
pub open spec fn expected_err(t: TokenType, c: TokModel) -> ErrModel {
    err_at("Expected "@ + kind_str(t) + ", got "@ + kind_str(c.kind), c.line, c.col)
}

/// A placeholder error for branches that cannot be reached.
pub open spec fn parse_dead_err() -> ErrModel {
    ErrModel { msg: Seq::empty(), line: None, col: None }
}

/// Consuming one token of the given kind: the token and the new position,
/// or the expected/found error.
pub open spec fn sp_eat(toks: Seq<TokModel>, pos: int, t: TokenType) -> Result<
    (TokModel, int),
    ErrModel,
> {
    let c = cur_of(toks, pos);
    if c.kind == t {
        Ok((c, pos + 1))
    } else {
        Err(expected_err(t, c))
    }
}

/// Whether a boolean token's decoded text means true.
pub open spec fn bool_of_text(s: Seq<char>) -> bool {
    s == "true"@ || s == "yes"@
}

pub open spec fn sp_bool_value(toks: Seq<TokModel>, pos: int) -> Result<(ValModel, int), ErrModel> {
    match sp_eat(toks, pos, TokenType::LBrace) {
        Ok((_t, p1)) => {
            let c = cur_of(toks, p1);
            if c.kind != TokenType::Boolean {
                Err(err_at("Expected boolean"@, c.line, c.col))
            } else {
                match sp_eat(toks, p1 + 1, TokenType::RBrace) {
                    Ok((_t2, p2)) => Ok((ValModel::Bool(bool_of_text(ttext(c))), p2)),
                    Err(e) => Err(e),
                }
            }
        },
        Err(e) => Err(e),
    }
}

pub open spec fn sp_str_value(toks: Seq<TokModel>, pos: int) -> Result<(ValModel, int), ErrModel> {
    match sp_eat(toks, pos, TokenType::LBrace) {
        Ok((_t, p1)) => match sp_eat(toks, p1, TokenType::String) {
            Ok((v, p2)) => match sp_eat(toks, p2, TokenType::RBrace) {
                Ok((_t2, p3)) => Ok((ValModel::Str(ttext(v)), p3)),
                Err(e) => Err(e),
            },
            Err(e) => Err(e),
        },
        Err(e) => Err(e),
    }
}

pub open spec fn sp_num_value(toks: Seq<TokModel>, pos: int) -> Result<(ValModel, int), ErrModel> {
    match sp_eat(toks, pos, TokenType::LBrace) {
        Ok((_t, p1)) => match sp_eat(toks, p1, TokenType::Number) {
            Ok((v, p2)) => match sp_eat(toks, p2, TokenType::RBrace) {
                Ok((_t2, p3)) => Ok((ValModel::Num(i64_of_text(ttext(v)) as int), p3)),
                Err(e) => Err(e),
            },
            Err(e) => Err(e),
        },
        Err(e) => Err(e),
    }
}

pub open spec fn sp_fl_value(toks: Seq<TokModel>, pos: int) -> Result<(ValModel, int), ErrModel> {
    match sp_eat(toks, pos, TokenType::LBrace) {
        Ok((_t, p1)) => {
            let c = cur_of(toks, p1);
            if c.kind == TokenType::Float {
                match sp_eat(toks, p1 + 1, TokenType::RBrace) {
                    Ok((_t2, p2)) => Ok((ValModel::Fl(fl_of_text(ttext(c))), p2)),
                    Err(e) => Err(e),
                }
            } else if c.kind == TokenType::Number {
                match sp_eat(toks, p1 + 1, TokenType::RBrace) {
                    Ok((_t2, p2)) => Ok(
                        (ValModel::Fl(int_literal(i64_of_text(ttext(c)) as int)), p2),
                    ),
                    Err(e) => Err(e),
                }
            } else {
                Err(err_at("Expected float or number"@, c.line, c.col))
            }
        },
        Err(e) => Err(e),
    }
}

pub open spec fn sp_ml_value(toks: Seq<TokModel>, pos: int) -> Result<(ValModel, int), ErrModel> {
    match sp_eat(toks, pos, TokenType::LBrace) {
        Ok((_t, p1)) => match sp_eat(toks, p1, TokenType::MultilineString) {
            Ok((v, p2)) => match sp_eat(toks, p2, TokenType::RBrace) {
                Ok((_t2, p3)) => Ok((ValModel::Ml(ttext(v)), p3)),
                Err(e) => Err(e),
            },
            Err(e) => Err(e),
        },
        Err(e) => Err(e),
    }
}

pub open spec fn sp_dynamic_value(toks: Seq<TokModel>, pos: int) -> Result<
    (ValModel, int),
    ErrModel,
> {
    match sp_eat(toks, pos, TokenType::LBrace) {
        Ok((_t, p1)) => {
            let c = cur_of(toks, p1);
            let payload: Result<ValModel, ErrModel> = if c.kind == TokenType::Number {
                Ok(ValModel::Num(i64_of_text(ttext(c)) as int))
            } else if c.kind == TokenType::Float {
                Ok(ValModel::Fl(fl_of_text(ttext(c))))
            } else if c.kind == TokenType::Boolean {
                Ok(ValModel::Bool(bool_of_text(ttext(c))))
            } else if c.kind == TokenType::String {
                Ok(ValModel::Str(ttext(c)))
            } else if c.kind == TokenType::MultilineString {
                Ok(ValModel::Ml(ttext(c)))
            } else {
                Err(err_at("dynamic supports only base types (bool, str, num, fl, ml)"@, c.line, c.col))
            };
            match payload {
                Ok(v) => match sp_eat(toks, p1 + 1, TokenType::RBrace) {
                    Ok((_t2, p2)) => Ok((ValModel::Dynamic(Box::new(v)), p2)),
                    Err(e) => Err(e),
                },
                Err(e) => Err(e),
            }
        },
        Err(e) => Err(e),
    }
}

/// Elements of a `list(num)` body, folded onto `acc`: either the list is
/// empty, or elements separated by commas up to the closing brace (which a
/// comma may not immediately precede).
pub open spec fn sp_list_num_items(toks: Seq<TokModel>, pos: int, acc: Seq<int>) -> Result<
    (Seq<int>, int),
    ErrModel,
>
    decreases toks.len() - pos,
{
    if acc.len() == 0 && cur_of(toks, pos).kind == TokenType::RBrace {
        Ok((acc, pos))
    } else {
        match sp_eat(toks, pos, TokenType::Number) {
            Ok((v, p1)) => {
                let acc2 = acc.push(i64_of_text(ttext(v)) as int);
                let c = cur_of(toks, p1);
                if c.kind == TokenType::Comma {
                    if pos < p1 + 1 <= toks.len() {
                        sp_list_num_items(toks, p1 + 1, acc2)
                    } else {
                        Err(parse_dead_err())
                    }
                } else if c.kind != TokenType::RBrace {
                    Err(err_at("Expected comma or closing brace"@, c.line, c.col))
                } else {
                    Ok((acc2, p1))
                }
            },
            Err(e) => Err(e),
        }
    }
}

/// Elements of a `list(fl)` body.
pub open spec fn sp_list_fl_items(toks: Seq<TokModel>, pos: int, acc: Seq<Seq<char>>) -> Result<
    (Seq<Seq<char>>, int),
    ErrModel,
>
    decreases toks.len() - pos,
{
    if acc.len() == 0 && cur_of(toks, pos).kind == TokenType::RBrace {
        Ok((acc, pos))
    } else {
        let c0 = cur_of(toks, pos);
        let elem: Result<Seq<char>, ErrModel> = if c0.kind == TokenType::Float {
            Ok(fl_of_text(ttext(c0)))
        } else if c0.kind == TokenType::Number {
            Ok(int_literal(i64_of_text(ttext(c0)) as int))
        } else {
            Err(err_at("Expected float or number"@, c0.line, c0.col))
        };
        match elem {
            Ok(d) => {
                let acc2 = acc.push(d);
                let p1 = pos + 1;
                let c = cur_of(toks, p1);
                if c.kind == TokenType::Comma {
                    if pos < p1 + 1 <= toks.len() {
                        sp_list_fl_items(toks, p1 + 1, acc2)
                    } else {
                        Err(parse_dead_err())
                    }
                } else if c.kind != TokenType::RBrace {
                    Err(err_at("Expected comma or closing brace"@, c.line, c.col))
                } else {
                    Ok((acc2, p1))
                }
            },
            Err(e) => Err(e),
        }
    }
}

/// Elements of a `list(bool)` body.
pub open spec fn sp_list_bool_items(toks: Seq<TokModel>, pos: int, acc: Seq<bool>) -> Result<
    (Seq<bool>, int),
    ErrModel,
>
    decreases toks.len() - pos,
{
    if acc.len() == 0 && cur_of(toks, pos).kind == TokenType::RBrace {
        Ok((acc, pos))
    } else {
        match sp_eat(toks, pos, TokenType::Boolean) {
            Ok((v, p1)) => {
                let acc2 = acc.push(bool_of_text(ttext(v)));
                let c = cur_of(toks, p1);
                if c.kind == TokenType::Comma {
                    if pos < p1 + 1 <= toks.len() {
                        sp_list_bool_items(toks, p1 + 1, acc2)
                    } else {
                        Err(parse_dead_err())
                    }
                } else if c.kind != TokenType::RBrace {
                    Err(err_at("Expected comma or closing brace"@, c.line, c.col))
                } else {
                    Ok((acc2, p1))
                }
            },
            Err(e) => Err(e),
        }
    }
}

/// Elements of a `list(str)` body.
pub open spec fn sp_list_str_items(toks: Seq<TokModel>, pos: int, acc: Seq<Seq<char>>) -> Result<
    (Seq<Seq<char>>, int),
    ErrModel,
>
    decreases toks.len() - pos,
{
    if acc.len() == 0 && cur_of(toks, pos).kind == TokenType::RBrace {
        Ok((acc, pos))
    } else {
        match sp_eat(toks, pos, TokenType::String) {
            Ok((v, p1)) => {
                let acc2 = acc.push(ttext(v));
                let c = cur_of(toks, p1);
                if c.kind == TokenType::Comma {
                    if pos < p1 + 1 <= toks.len() {
                        sp_list_str_items(toks, p1 + 1, acc2)
                    } else {
                        Err(parse_dead_err())
                    }
                } else if c.kind != TokenType::RBrace {
                    Err(err_at("Expected comma or closing brace"@, c.line, c.col))
                } else {
                    Ok((acc2, p1))
                }
            },
            Err(e) => Err(e),
        }
    }
}

/// A list value: the parenthesized element kind, then the brace-enclosed
/// comma-separated elements of exactly that kind.
pub open spec fn sp_list_value(toks: Seq<TokModel>, pos: int) -> Result<(ValModel, int), ErrModel> {
    match sp_eat(toks, pos, TokenType::LParen) {
        Ok((_t, p1)) => {
            let el = cur_of(toks, p1);
            if el.kind == TokenType::NumKw || el.kind == TokenType::FlKw || el.kind
                == TokenType::BoolKw || el.kind == TokenType::StrKw {
                match sp_eat(toks, p1 + 1, TokenType::RParen) {
                    Ok((_t2, p2)) => match sp_eat(toks, p2, TokenType::LBrace) {
                        Ok((_t3, p3)) => if p3 <= toks.len() {
                            if el.kind == TokenType::NumKw {
                                match sp_list_num_items(toks, p3, Seq::empty()) {
                                    Ok((items, p4)) => match sp_eat(toks, p4, TokenType::RBrace) {
                                        Ok((_t4, p5)) => Ok((ValModel::ListNum(items), p5)),
                                        Err(e) => Err(e),
                                    },
                                    Err(e) => Err(e),
                                }
                            } else if el.kind == TokenType::FlKw {
                                match sp_list_fl_items(toks, p3, Seq::empty()) {
                                    Ok((items, p4)) => match sp_eat(toks, p4, TokenType::RBrace) {
                                        Ok((_t4, p5)) => Ok((ValModel::ListFl(items), p5)),
                                        Err(e) => Err(e),
                                    },
                                    Err(e) => Err(e),
                                }
                            } else if el.kind == TokenType::BoolKw {
                                match sp_list_bool_items(toks, p3, Seq::empty()) {
                                    Ok((items, p4)) => match sp_eat(toks, p4, TokenType::RBrace) {
                                        Ok((_t4, p5)) => Ok((ValModel::ListBool(items), p5)),
                                        Err(e) => Err(e),
                                    },
                                    Err(e) => Err(e),
                                }
                            } else {
                                match sp_list_str_items(toks, p3, Seq::empty()) {
                                    Ok((items, p4)) => match sp_eat(toks, p4, TokenType::RBrace) {
                                        Ok((_t4, p5)) => Ok((ValModel::ListStr(items), p5)),
                                        Err(e) => Err(e),
                                    },
                                    Err(e) => Err(e),
                                }
                            }
                        } else {
                            Err(parse_dead_err())
                        },
                        Err(e) => Err(e),
                    },
                    Err(e) => Err(e),
                }
            } else {
                Err(
                    err_at(
                        "Unsupported list element type: "@ + dbg_opt(el.text),
                        el.line,
                        el.col,
                    ),
                )
            }
        },
        Err(e) => Err(e),
    }
}

/// Inserting a declaration into a mapping: an existing key's value is
/// replaced in place, a new key is appended.
pub open spec fn upsert(
    m: Seq<(Seq<char>, ValModel)>,
    k: Seq<char>,
    v: ValModel,
) -> Seq<(Seq<char>, ValModel)>
    decreases m.len(),
{
    if m.len() == 0 {
        seq![(k, v)]
    } else if m[0].0 == k {
        seq![(k, v)] + m.drop_first()
    } else {
        seq![m[0]] + upsert(m.drop_first(), k, v)
    }
}

/// Whether a token may stand as a declaration name.
pub open spec fn name_kind(k: TokenType) -> bool {
    ||| k == TokenType::Identifier
    ||| k == TokenType::BoolKw
    ||| k == TokenType::StrKw
    ||| k == TokenType::NumKw
    ||| k == TokenType::FlKw
    ||| k == TokenType::MlKw
    ||| k == TokenType::ClassKw
    ||| k == TokenType::ListKw
    ||| k == TokenType::DynamicKw
    ||| k == TokenType::Number
    ||| k == TokenType::String
}

/// One declaration: a name, `::`, and a typed value.
pub open spec fn sp_parameter(toks: Seq<TokModel>, pos: int) -> Result<
    ((Seq<char>, ValModel), int),
    ErrModel,
>
    decreases toks.len() - pos, 0int,
{
    let nt = cur_of(toks, pos);
    if !name_kind(nt.kind) {
        Err(
            err_at(
                "Expected identifier or keyword, got "@ + kind_str(nt.kind),
                nt.line,
                nt.col,
            ),
        )
    } else {
        let name = ttext(nt);
        match sp_eat(toks, pos + 1, TokenType::DoubleColon) {
            Ok((_t, p2)) => {
                let tt = cur_of(toks, p2);
                if tt.kind == TokenType::BoolKw {
                    match sp_bool_value(toks, p2 + 1) {
                        Ok((v, p3)) => Ok(((name, v), p3)),
                        Err(e) => Err(e),
                    }
                } else if tt.kind == TokenType::StrKw {
                    match sp_str_value(toks, p2 + 1) {
                        Ok((v, p3)) => Ok(((name, v), p3)),
                        Err(e) => Err(e),
                    }
                } else if tt.kind == TokenType::NumKw {
                    match sp_num_value(toks, p2 + 1) {
                        Ok((v, p3)) => Ok(((name, v), p3)),
                        Err(e) => Err(e),
                    }
                } else if tt.kind == TokenType::FlKw {
                    match sp_fl_value(toks, p2 + 1) {
                        Ok((v, p3)) => Ok(((name, v), p3)),
                        Err(e) => Err(e),
                    }
                } else if tt.kind == TokenType::MlKw {
                    match sp_ml_value(toks, p2 + 1) {
                        Ok((v, p3)) => Ok(((name, v), p3)),
                        Err(e) => Err(e),
                    }
                } else if tt.kind == TokenType::ClassKw {
                    if 0 <= pos && pos + 3 <= toks.len() {
                        match sp_class_value(toks, p2 + 1) {
                            Ok((v, p3)) => Ok(((name, v), p3)),
                            Err(e) => Err(e),
                        }
                    } else {
                        Err(parse_dead_err())
                    }
                } else if tt.kind == TokenType::ListKw {
                    match sp_list_value(toks, p2 + 1) {
                        Ok((v, p3)) => Ok(((name, v), p3)),
                        Err(e) => Err(e),
                    }
                } else if tt.kind == TokenType::DynamicKw {
                    match sp_dynamic_value(toks, p2 + 1) {
                        Ok((v, p3)) => Ok(((name, v), p3)),
                        Err(e) => Err(e),
                    }
                } else {
                    Err(err_at("Unknown type: "@ + dbg_opt(tt.text), tt.line, tt.col))
                }
            },
            Err(e) => Err(e),
        }
    }
}

/// Declarations folded onto `acc` until the stopping token kind, which is
/// left unconsumed.
pub open spec fn sp_params(
    toks: Seq<TokModel>,
    pos: int,
    stop: TokenType,
    acc: Seq<(Seq<char>, ValModel)>,
) -> Result<(Seq<(Seq<char>, ValModel)>, int), ErrModel>
    decreases toks.len() - pos, 1int,
{
    if cur_of(toks, pos).kind == stop {
        Ok((acc, pos))
    } else {
        match sp_parameter(toks, pos) {
            Ok(((n, v), p2)) => if pos < p2 <= toks.len() {
                sp_params(toks, p2, stop, upsert(acc, n, v))
            } else {
                Err(parse_dead_err())
            },
            Err(e) => Err(e),
        }
    }
}

/// A class value: a brace-enclosed run of declarations.
pub open spec fn sp_class_value(toks: Seq<TokModel>, pos: int) -> Result<(ValModel, int), ErrModel>
    decreases toks.len() - pos, 2int,
{
    match sp_eat(toks, pos, TokenType::LBrace) {
        Ok((_t, p1)) => if pos < p1 <= toks.len() {
            match sp_params(toks, p1, TokenType::RBrace, Seq::empty()) {
                Ok((es, p2)) => match sp_eat(toks, p2, TokenType::RBrace) {
                    Ok((_t2, p3)) => Ok((ValModel::Class(es), p3)),
                    Err(e) => Err(e),
                },
                Err(e) => Err(e),
            }
        } else {
            Err(parse_dead_err())
        },
        Err(e) => Err(e),
    }
}

/// The result of parsing a whole (filtered) token sequence.
pub open spec fn spec_parse(toks: Seq<TokModel>, pos: int) -> Result<
    (Seq<(Seq<char>, ValModel)>, int),
    ErrModel,
> {
    sp_params(toks, pos, TokenType::Eof, Seq::empty())
}

/// No name appears twice in a mapping.
pub open spec fn unique_keys(es: Seq<(Seq<char>, ValModel)>) -> bool {
    forall|i: int, j: int| 0 <= i < j < es.len() ==> es[i].0 != es[j].0
}

proof fn lemma_upsert_keys(m: Seq<(Seq<char>, ValModel)>, k: Seq<char>, v: ValModel, x: Seq<char>)
    requires
        exists|i: int| 0 <= i < upsert(m, k, v).len() && #[trigger] upsert(m, k, v)[i].0 == x,
    ensures
        x == k || exists|i: int| 0 <= i < m.len() && #[trigger] m[i].0 == x,
    decreases m.len(),
{
    let u = upsert(m, k, v);
    let i = choose|i: int| 0 <= i < u.len() && #[trigger] u[i].0 == x;
    if m.len() == 0 {
        assert(u[i] == (k, v));
    } else if m[0].0 == k {
        if i == 0 {
        } else {
            assert(u[i] == m.drop_first()[i - 1]);
            assert(m[i] == m.drop_first()[i - 1]);
        }
    } else {
        if i == 0 {
            assert(u[0] == m[0]);
        } else {
            let ur = upsert(m.drop_first(), k, v);
            assert(u[i] == ur[i - 1]);
            lemma_upsert_keys(m.drop_first(), k, v, x);
            if x != k {
                let j = choose|j: int|
                    0 <= j < m.drop_first().len() && #[trigger] m.drop_first()[j].0 == x;
                assert(m[j + 1].0 == x);
            }
        }
    }
}

/// Inserting a declaration keeps the names of a mapping unique.
pub proof fn lemma_upsert_unique(m: Seq<(Seq<char>, ValModel)>, k: Seq<char>, v: ValModel)
    requires
        unique_keys(m),
    ensures
        unique_keys(upsert(m, k, v)),
    decreases m.len(),
{
    let u = upsert(m, k, v);
    if m.len() == 0 {
    } else if m[0].0 == k {
        assert forall|i: int, j: int| 0 <= i < j < u.len() implies u[i].0 != u[j].0 by {
            if i == 0 {
                assert(u[j] == m.drop_first()[j - 1]);
                assert(m[j] == m.drop_first()[j - 1]);
            } else {
                assert(u[i] == m[i] && u[j] == m[j]);
            }
        }
    } else {
        let rest = m.drop_first();
        assert forall|i: int, j: int| 0 <= i < j < rest.len() implies rest[i].0 != rest[j].0 by {
            assert(rest[i] == m[i + 1] && rest[j] == m[j + 1]);
        }
        lemma_upsert_unique(rest, k, v);
        let ur = upsert(rest, k, v);
        assert forall|i: int, j: int| 0 <= i < j < u.len() implies u[i].0 != u[j].0 by {
            if i == 0 {
                assert(u[j] == ur[j - 1]);
                if u[j].0 == m[0].0 {
                    lemma_upsert_keys(rest, k, v, m[0].0);
                    if m[0].0 != k {
                        let w = choose|w: int|
                            0 <= w < rest.len() && #[trigger] rest[w].0 == m[0].0;
                        assert(m[w + 1].0 == m[0].0);
                    }
                }
            } else {
                assert(u[i] == ur[i - 1] && u[j] == ur[j - 1]);
            }
        }
    }
}

/// Parsing builds a genuine mapping: the declarations folded onto a mapping
/// with unique names yield a mapping with unique names, a repeated
/// declaration replacing the earlier one rather than standing twice.
pub proof fn lemma_params_unique(
    toks: Seq<TokModel>,
    pos: int,
    stop: TokenType,
    acc: Seq<(Seq<char>, ValModel)>,
)
    requires
        unique_keys(acc),
    ensures
        sp_params(toks, pos, stop, acc) matches Ok(x) ==> unique_keys(x.0),
    decreases toks.len() - pos, 1int,
{
    if cur_of(toks, pos).kind == stop {
    } else {
        match sp_parameter(toks, pos) {
            Ok(((n, v), p2)) => {
                if pos < p2 <= toks.len() {
                    lemma_upsert_unique(acc, n, v);
                    lemma_params_unique(toks, p2, stop, upsert(acc, n, v));
                }
            },
            Err(_) => {},
        }
    }
}

/// A parsed token sequence yields a mapping with unique names.
pub proof fn lemma_parse_unique(toks: Seq<TokModel>, pos: int)
    ensures
        spec_parse(toks, pos) matches Ok(x) ==> unique_keys(x.0),
{
    lemma_params_unique(toks, pos, TokenType::Eof, Seq::empty());
}

proof fn lemma_upsert_found(s: Seq<(Seq<char>, ValModel)>, k: Seq<char>, v: ValModel, i: int)
    requires
        0 <= i < s.len(),
        s[i].0 == k,
        forall|j: int| 0 <= j < i ==> s[j].0 != k,
    ensures
        upsert(s, k, v) == s.update(i, (k, v)),
    decreases i,
{
    if i == 0 {
        assert(upsert(s, k, v) =~= s.update(0, (k, v)));
    } else {
        assert(s[0].0 != k);
        let t = s.drop_first();
        assert forall|j: int| 0 <= j < i - 1 implies t[j].0 != k by {
            assert(t[j] == s[j + 1]);
        }
        assert(t[i - 1] == s[i]);
        lemma_upsert_found(t, k, v, i - 1);
        assert(seq![s[0]] + t.update(i - 1, (k, v)) =~= s.update(i, (k, v)));
    }
}

proof fn lemma_upsert_absent(s: Seq<(Seq<char>, ValModel)>, k: Seq<char>, v: ValModel)
    requires
        forall|j: int| 0 <= j < s.len() ==> s[j].0 != k,
    ensures
        upsert(s, k, v) == s.push((k, v)),
    decreases s.len(),
{
    if s.len() == 0 {
        assert(upsert(s, k, v) =~= s.push((k, v)));
    } else {
        let t = s.drop_first();
        assert forall|j: int| 0 <= j < t.len() implies t[j].0 != k by {
            assert(t[j] == s[j + 1]);
        }
        lemma_upsert_absent(t, k, v);
        assert(seq![s[0]] + t.push((k, v)) =~= s.push((k, v)));
    }
}

/// Replaces the value of an existing key in place, or appends a new entry.
fn upsert_entry(m: &mut Vec<(String, Value)>, k: String, v: Value)
    ensures
        entries_model(final(m)@) == upsert(entries_model(old(m)@), k@, vmodel(v)),
{
    broadcast use crate::value::lemma_entries_model_len, crate::value::lemma_entries_model_index;

    let mut i: usize = 0;
    while i < m.len()
        invariant
            i <= m@.len(),
            *m == *old(m),
            forall|j: int| 0 <= j < i ==> m@[j].0@ != k@,
        decreases m@.len() - i,
    {
        if crate::chars::str_eq(m[i].0.as_str(), k.as_str()) {
            proof {
                let es = entries_model(m@);
                crate::value::lemma_entries_model_len(m@);
                assert forall|j: int| 0 <= j < i implies es[j].0 != k@ by {
                    crate::value::lemma_entries_model_index(m@, j);
                }
                crate::value::lemma_entries_model_index(m@, i as int);
                lemma_upsert_found(es, k@, vmodel(v), i as int);
            }
            let ghost mpre = m@;
            m.set(i, (k, v));
            proof {
                crate::value::lemma_entries_model_update(mpre, i as int, m@[i as int]);
            }
            return ;
        }
        i = i + 1;
    }
    proof {
        let es = entries_model(m@);
        crate::value::lemma_entries_model_len(m@);
        assert forall|j: int| 0 <= j < es.len() implies es[j].0 != k@ by {
            crate::value::lemma_entries_model_index(m@, j);
        }
        lemma_upsert_absent(es, k@, vmodel(v));
    }
    let ghost mpre = m@;
    m.push((k, v));
    proof {
        crate::value::lemma_entries_model_push(mpre, m@[m@.len() - 1]);
        assert(mpre.push(m@[m@.len() - 1]) =~= m@);
    }
}

/// The parser's state: the filtered tokens and the cursor.
pub struct PModel {
    pub toks: Seq<TokModel>,
    pub pos: int,
}

pub struct Parser {
    tokens: Vec<Token>,
    pos: usize,
}

impl View for Parser {
    type V = PModel;

    closed spec fn view(&self) -> PModel {
        PModel { toks: toks_model(self.tokens@), pos: self.pos as int }
    }
}

/// The name of a token kind, as error messages spell it.
pub fn kind_name(t: TokenType) -> (s: &'static str)
    ensures
        s@ == kind_str(t),
{
    match t {
        TokenType::Identifier => "Identifier",
        TokenType::DoubleColon => "DoubleColon",
        TokenType::BoolKw => "BoolKw",
        TokenType::StrKw => "StrKw",
        TokenType::NumKw => "NumKw",
        TokenType::FlKw => "FlKw",
        TokenType::MlKw => "MlKw",
        TokenType::ClassKw => "ClassKw",
        TokenType::ListKw => "ListKw",
        TokenType::DynamicKw => "DynamicKw",
        TokenType::LBrace => "LBrace",
        TokenType::RBrace => "RBrace",
        TokenType::LParen => "LParen",
        TokenType::RParen => "RParen",
        TokenType::Comma => "Comma",
        TokenType::String => "String",
        TokenType::MultilineString => "MultilineString",
        TokenType::Number => "Number",
        TokenType::Float => "Float",
        TokenType::Boolean => "Boolean",
        TokenType::Comment => "Comment",
        TokenType::Newline => "Newline",
        TokenType::Eof => "Eof",
    }
}

impl Parser {
    /// The cursor is inside the tokens, whose last entry is the end-of-input
    /// marker.
    pub open spec fn wf(&self) -> bool {
        &&& self@.toks.len() >= 1
        &&& self@.toks.last().kind == TokenType::Eof
        &&& self@.pos <= self@.toks.len() - 1
    }

    /// Keeps the tokens the grammar reads, dropping newlines and comments.
    pub fn new(tokens: Vec<Token>) -> (p: Self)
        ensures
            p@.toks == filtered(toks_model(tokens@)),
            p@.pos == 0,
    {
        let mut kept: Vec<Token> = Vec::new();
        let mut i: usize = 0;
        proof {
            assert(toks_model(tokens@).take(0) =~= Seq::empty());
            assert(filtered(Seq::empty()) =~= Seq::<TokModel>::empty());
            assert(toks_model(kept@) =~= Seq::<TokModel>::empty());
        }
        while i < tokens.len()
            invariant
                i <= tokens@.len(),
                toks_model(kept@) == filtered(toks_model(tokens@).take(i as int)),
            decreases tokens@.len() - i,
        {
            let keep = tokens[i].ttype != TokenType::Newline && tokens[i].ttype
                != TokenType::Comment;
            let ghost pre = toks_model(kept@);
            if keep {
                let t = &tokens[i];
                let value = match &t.value {
                    Some(s) => Some(s.clone()),
                    None => None,
                };
                kept.push(Token::new(t.ttype, value, t.line, t.column));
            }
            i = i + 1;
            proof {
                let all = toks_model(tokens@);
                let prefix = all.take(i as int);
                assert(prefix.drop_last() =~= all.take(i - 1));
                assert(prefix.last() == all[i - 1]);
                if keep {
                    assert(toks_model(kept@) =~= pre.push(all[i - 1]));
                } else {
                    assert(toks_model(kept@) =~= pre);
                }
            }
        }
        proof {
            assert(toks_model(tokens@).take(tokens@.len() as int) =~= toks_model(tokens@));
        }
        Parser { tokens: kept, pos: 0 }
    }

    fn cur(&self) -> (t: &Token)
        requires
            self.wf(),
        ensures
            t@ == cur_of(self@.toks, self@.pos),
            t@ == self@.toks[self@.pos],
    {
        &self.tokens[self.pos]
    }

    fn eat(&mut self, t: TokenType) -> (r: Result<Token, SyntaxError>)
        requires
            old(self).wf(),
            t != TokenType::Eof,
        ensures
            final(self).wf(),
            final(self)@.toks == old(self)@.toks,
            match sp_eat(old(self)@.toks, old(self)@.pos, t) {
                Ok((c, p2)) => r matches Ok(rt) && rt@ == c && final(self)@.pos == p2,
                Err(e) => r matches Err(re) && re@ == e && final(self)@.pos == old(self)@.pos,
            },
    {
        let ct = self.tokens[self.pos].ttype;
        if ct != t {
            let line = self.tokens[self.pos].line;
            let column = self.tokens[self.pos].column;
            let mut msg = String::new();
            msg.append("Expected ");
            msg.append(kind_name(t));
            msg.append(", got ");
            msg.append(kind_name(ct));
            return Err(SyntaxError::new(msg, Some(line), Some(column)));
        }
        let value = match &self.tokens[self.pos].value {
            Some(s) => Some(s.clone()),
            None => None,
        };
        let tok = Token::new(
            ct,
            value,
            self.tokens[self.pos].line,
            self.tokens[self.pos].column,
        );
        proof {
            assert(self@.pos < self@.toks.len() - 1);
        }
        self.bump();
        Ok(tok)
    }

    /// The current token's text, as declaration names and literals use it.
    fn cur_text(&self) -> (s: String)
        requires
            self.wf(),
        ensures
            s@ == ttext(self@.toks[self@.pos]),
    {
        match &self.tokens[self.pos].value {
            Some(v) => v.clone(),
            None => String::new(),
        }
    }

    /// Steps past the current token, which is not the end-of-input marker.
    fn bump(&mut self)
        requires
            old(self).wf(),
            old(self)@.toks[old(self)@.pos].kind != TokenType::Eof,
        ensures
            final(self).wf(),
            final(self)@.toks == old(self)@.toks,
            final(self)@.pos == old(self)@.pos + 1,
    {
        let n = self.tokens.len();
        proof {
            assert(self@.pos < self@.toks.len() - 1);
        }
        self.pos = self.pos + 1;
    }

    fn parse_bool_value(&mut self) -> (r: Result<Value, SyntaxError>)
        requires
            old(self).wf(),
        ensures
            final(self).wf(),
            final(self)@.toks == old(self)@.toks,
            match sp_bool_value(old(self)@.toks, old(self)@.pos) {
                Ok((vm, p2)) => r matches Ok(v) && vmodel(v) == vm && final(self)@.pos == p2
                    && old(self)@.pos < p2,
                Err(e) => r matches Err(re) && re@ == e,
            },
    {
        match self.eat(TokenType::LBrace) {
            Err(e) => {
                return Err(e);
            },
            Ok(_) => {},
        }
        let kind = self.tokens[self.pos].ttype;
        if kind != TokenType::Boolean {
            let line = self.tokens[self.pos].line;
            let column = self.tokens[self.pos].column;
            return Err(
                SyntaxError::new(String::from_str("Expected boolean"), Some(line), Some(column)),
            );
        }
        let text = self.cur_text();
        let b = crate::chars::str_eq(text.as_str(), "true") || crate::chars::str_eq(
            text.as_str(),
            "yes",
        );
        self.bump();
        match self.eat(TokenType::RBrace) {
            Err(e) => {
                return Err(e);
            },
            Ok(_) => {},
        }
        Ok(Value::Bool(b))
    }

    fn parse_str_value(&mut self) -> (r: Result<Value, SyntaxError>)
        requires
            old(self).wf(),
        ensures
            final(self).wf(),
            final(self)@.toks == old(self)@.toks,
            match sp_str_value(old(self)@.toks, old(self)@.pos) {
                Ok((vm, p2)) => r matches Ok(v) && vmodel(v) == vm && final(self)@.pos == p2
                    && old(self)@.pos < p2,
                Err(e) => r matches Err(re) && re@ == e,
            },
    {
        match self.eat(TokenType::LBrace) {
            Err(e) => {
                return Err(e);
            },
            Ok(_) => {},
        }
        let v = match self.eat(TokenType::String) {
            Err(e) => {
                return Err(e);
            },
            Ok(t) => t,
        };
        match self.eat(TokenType::RBrace) {
            Err(e) => {
                return Err(e);
            },
            Ok(_) => {},
        }
        let s = match v.value {
            Some(s) => s,
            None => String::new(),
        };
        Ok(Value::Str(s))
    }

    fn parse_num_value(&mut self) -> (r: Result<Value, SyntaxError>)
        requires
            old(self).wf(),
        ensures
            final(self).wf(),
            final(self)@.toks == old(self)@.toks,
            match sp_num_value(old(self)@.toks, old(self)@.pos) {
                Ok((vm, p2)) => r matches Ok(v) && vmodel(v) == vm && final(self)@.pos == p2
                    && old(self)@.pos < p2,
                Err(e) => r matches Err(re) && re@ == e,
            },
    {
        match self.eat(TokenType::LBrace) {
            Err(e) => {
                return Err(e);
            },
            Ok(_) => {},
        }
        let v = match self.eat(TokenType::Number) {
            Err(e) => {
                return Err(e);
            },
            Ok(t) => t,
        };
        match self.eat(TokenType::RBrace) {
            Err(e) => {
                return Err(e);
            },
            Ok(_) => {},
        }
        let n = match &v.value {
            Some(s) => crate::numbers::text_to_i64(s.as_str()),
            None => 0,
        };
        proof {
            if v@.text is None {
                assert(!crate::numbers::is_int_text(Seq::<char>::empty()));
            }
        }
        Ok(Value::Num(n))
    }

    fn parse_fl_value(&mut self) -> (r: Result<Value, SyntaxError>)
        requires
            old(self).wf(),
        ensures
            final(self).wf(),
            final(self)@.toks == old(self)@.toks,
            match sp_fl_value(old(self)@.toks, old(self)@.pos) {
                Ok((vm, p2)) => r matches Ok(v) && vmodel(v) == vm && final(self)@.pos == p2
                    && old(self)@.pos < p2,
                Err(e) => r matches Err(re) && re@ == e,
            },
    {
        match self.eat(TokenType::LBrace) {
            Err(e) => {
                return Err(e);
            },
            Ok(_) => {},
        }
        let kind = self.tokens[self.pos].ttype;
        let d: crate::value::Decimal = if kind == TokenType::Float {
            let text = self.cur_text();
            self.bump();
            crate::value::Decimal::from_literal(text.as_str())
        } else if kind == TokenType::Number {
            let text = self.cur_text();
            self.bump();
            let n = crate::numbers::text_to_i64(text.as_str());
            crate::value::Decimal::from_i64(n)
        } else {
            let line = self.tokens[self.pos].line;
            let column = self.tokens[self.pos].column;
            return Err(
                SyntaxError::new(
                    String::from_str("Expected float or number"),
                    Some(line),
                    Some(column),
                ),
            );
        };
        match self.eat(TokenType::RBrace) {
            Err(e) => {
                return Err(e);
            },
            Ok(_) => {},
        }
        Ok(Value::Fl(d))
    }

    fn parse_ml_value(&mut self) -> (r: Result<Value, SyntaxError>)
        requires
            old(self).wf(),
        ensures
            final(self).wf(),
            final(self)@.toks == old(self)@.toks,
            match sp_ml_value(old(self)@.toks, old(self)@.pos) {
                Ok((vm, p2)) => r matches Ok(v) && vmodel(v) == vm && final(self)@.pos == p2
                    && old(self)@.pos < p2,
                Err(e) => r matches Err(re) && re@ == e,
            },
    {
        match self.eat(TokenType::LBrace) {
            Err(e) => {
                return Err(e);
            },
            Ok(_) => {},
        }
        let v = match self.eat(TokenType::MultilineString) {
            Err(e) => {
                return Err(e);
            },
            Ok(t) => t,
        };
        match self.eat(TokenType::RBrace) {
            Err(e) => {
                return Err(e);
            },
            Ok(_) => {},
        }
        let s = match v.value {
            Some(s) => s,
            None => String::new(),
        };
        Ok(Value::Ml(s))
    }

    fn parse_dynamic_value(&mut self) -> (r: Result<Value, SyntaxError>)
        requires
            old(self).wf(),
        ensures
            final(self).wf(),
            final(self)@.toks == old(self)@.toks,
            match sp_dynamic_value(old(self)@.toks, old(self)@.pos) {
                Ok((vm, p2)) => r matches Ok(v) && vmodel(v) == vm && final(self)@.pos == p2
                    && old(self)@.pos < p2,
                Err(e) => r matches Err(re) && re@ == e,
            },
    {
        match self.eat(TokenType::LBrace) {
            Err(e) => {
                return Err(e);
            },
            Ok(_) => {},
        }
        let kind = self.tokens[self.pos].ttype;
        let payload: Value = if kind == TokenType::Number {
            let text = self.cur_text();
            self.bump();
            let n = crate::numbers::text_to_i64(text.as_str());
            Value::Num(n)
        } else if kind == TokenType::Float {
            let text = self.cur_text();
            self.bump();
            Value::Fl(crate::value::Decimal::from_literal(text.as_str()))
        } else if kind == TokenType::Boolean {
            let text = self.cur_text();
            let b = crate::chars::str_eq(text.as_str(), "true") || crate::chars::str_eq(
                text.as_str(),
                "yes",
            );
            self.bump();
            Value::Bool(b)
        } else if kind == TokenType::String {
            let text = self.cur_text();
            self.bump();
            Value::Str(text)
        } else if kind == TokenType::MultilineString {
            let text = self.cur_text();
            self.bump();
            Value::Ml(text)
        } else {
            let line = self.tokens[self.pos].line;
            let column = self.tokens[self.pos].column;
            return Err(
                SyntaxError::new(
                    String::from_str("dynamic supports only base types (bool, str, num, fl, ml)"),
                    Some(line),
                    Some(column),
                ),
            );
        };
        match self.eat(TokenType::RBrace) {
            Err(e) => {
                return Err(e);
            },
            Ok(_) => {},
        }
        proof {
            let toks = old(self)@.toks;
            let p0 = old(self)@.pos;
            let c = cur_of(toks, p0 + 1);
            assert(sp_eat(toks, p0, TokenType::LBrace) matches Ok(x) && x.1 == p0 + 1);
            assert(sp_dynamic_value(toks, p0) matches Ok(x) && x.1 == final(self)@.pos);
            if c.kind == TokenType::Number {
                assert(vmodel(payload) == ValModel::Num(i64_of_text(ttext(c)) as int));
            } else if c.kind == TokenType::Float {
                assert(vmodel(payload) == ValModel::Fl(fl_of_text(ttext(c))));
            } else if c.kind == TokenType::Boolean {
                assert(vmodel(payload) == ValModel::Bool(bool_of_text(ttext(c))));
            } else if c.kind == TokenType::String {
                assert(vmodel(payload) == ValModel::Str(ttext(c)));
            } else {
                assert(vmodel(payload) == ValModel::Ml(ttext(c)));
            }
            assert(vmodel(Value::Dynamic(Box::new(payload))) == ValModel::Dynamic(
                Box::new(vmodel(payload)),
            ));
            assert(sp_dynamic_value(toks, p0) matches Ok(x) && x.0 == vmodel(
                Value::Dynamic(Box::new(payload)),
            ));
        }
        Ok(Value::Dynamic(Box::new(payload)))
    }

    #[verifier::rlimit(90)]
    fn parse_list_value(&mut self) -> (r: Result<Value, SyntaxError>)
        requires
            old(self).wf(),
        ensures
            final(self).wf(),
            final(self)@.toks == old(self)@.toks,
            match sp_list_value(old(self)@.toks, old(self)@.pos) {
                Ok((vm, p2)) => r matches Ok(v) && vmodel(v) == vm && final(self)@.pos == p2
                    && old(self)@.pos < p2,
                Err(e) => r matches Err(re) && re@ == e,
            },
    {
        let ghost toks = self@.toks;
        match self.eat(TokenType::LParen) {
            Err(e) => {
                return Err(e);
            },
            Ok(_) => {},
        }
        let kind = self.tokens[self.pos].ttype;
        if !(kind == TokenType::NumKw || kind == TokenType::FlKw || kind == TokenType::BoolKw
            || kind == TokenType::StrKw) {
            let line = self.tokens[self.pos].line;
            let column = self.tokens[self.pos].column;
            let mut msg = String::new();
            msg.append("Unsupported list element type: ");
            match &self.tokens[self.pos].value {
                Some(v) => {
                    msg.append("Some(\"");
                    msg.append(v.as_str());
                    msg.append("\")");
                },
                None => {
                    msg.append("None");
                },
            }
            proof {
                assert(msg@ =~= "Unsupported list element type: "@ + dbg_opt(
                    self@.toks[self@.pos].text,
                ));
            }
            return Err(SyntaxError::new(msg, Some(line), Some(column)));
        }
        self.bump();
        match self.eat(TokenType::RParen) {
            Err(e) => {
                return Err(e);
            },
            Ok(_) => {},
        }
        match self.eat(TokenType::LBrace) {
            Err(e) => {
                return Err(e);
            },
            Ok(_) => {},
        }
        let ghost p3 = self@.pos;
if kind == TokenType::NumKw {
            let mut items: Vec<i64> = Vec::new();
            let ghost target = sp_list_value(toks, old(self)@.pos);
            proof {
                assert(items@.map_values(|x: i64| x as int) =~= Seq::empty());
            }
            if self.tokens[self.pos].ttype != TokenType::RBrace {
                let mut more = true;
                while more
                    invariant
                        self.wf(),
                        self@.toks == toks,
                        toks == old(self)@.toks,
                        target == sp_list_value(toks, old(self)@.pos),
                        old(self)@.pos < p3 <= self@.pos <= self@.toks.len() - 1,
                        more ==> (match sp_list_num_items(toks, self@.pos, items@.map_values(|x: i64| x as int)) {
                            Ok(x) => target == (match sp_eat(toks, x.1, TokenType::RBrace) {
                                Ok(y) => Ok::<(ValModel, int), ErrModel>((ValModel::ListNum(x.0), y.1)),
                                Err(e) => Err(e),
                            }),
                            Err(e) => target == Err::<(ValModel, int), ErrModel>(e),
                        }),
                        more && items@.map_values(|x: i64| x as int).len() == 0 ==> cur_of(toks, self@.pos).kind
                            != TokenType::RBrace,
                        !more ==> cur_of(toks, self@.pos).kind == TokenType::RBrace && target == (
                        match sp_eat(toks, self@.pos, TokenType::RBrace) {
                            Ok(y) => Ok::<(ValModel, int), ErrModel>((ValModel::ListNum(items@.map_values(|x: i64| x as int)), y.1)),
                            Err(e) => Err(e),
                        }),
                    decreases toks.len() - self@.pos + (if more { 1int } else { 0int }),
                {
                    let ghost items_pre = items@.map_values(|x: i64| x as int);
                    let v = match self.eat(TokenType::Number) {
                        Err(e) => {
                            return Err(e);
                        },
                        Ok(t) => t,
                    };
                    let n = match &v.value {
                        Some(s) => crate::numbers::text_to_i64(s.as_str()),
                        None => 0,
                    };
                    proof {
                        if v@.text is None {
                            assert(!crate::numbers::is_int_text(Seq::<char>::empty()));
                        }
                    }
                    items.push(n);
                    proof {
                        assert(items@.map_values(|x: i64| x as int) =~= items_pre.push(
                            n as int,
                        ));
                    }
                    if self.tokens[self.pos].ttype == TokenType::Comma {
                        self.bump();
                    } else if self.tokens[self.pos].ttype != TokenType::RBrace {
                        let line = self.tokens[self.pos].line;
                        let column = self.tokens[self.pos].column;
                        return Err(
                            SyntaxError::new(
                                String::from_str("Expected comma or closing brace"),
                                Some(line),
                                Some(column),
                            ),
                        );
                    } else {
                        more = false;
                    }
                }
            } else {
                proof {
                    assert(sp_list_num_items(toks, p3, items@.map_values(|x: i64| x as int)) == Ok::<_, ErrModel>((
                        items@.map_values(|x: i64| x as int),
                        p3,
                    )));
                }
            }
            match self.eat(TokenType::RBrace) {
                Err(e) => {
                    return Err(e);
                },
                Ok(_) => {},
            }
            Ok(Value::ListNum(items))
        } else if kind == TokenType::FlKw {
            let mut items: Vec<crate::value::Decimal> = Vec::new();
            let ghost target = sp_list_value(toks, old(self)@.pos);
            proof {
                assert(items@.map_values(|d: crate::value::Decimal| d@) =~= Seq::empty());
            }
            if self.tokens[self.pos].ttype != TokenType::RBrace {
                let mut more = true;
                while more
                    invariant
                        self.wf(),
                        self@.toks == toks,
                        toks == old(self)@.toks,
                        target == sp_list_value(toks, old(self)@.pos),
                        old(self)@.pos < p3 <= self@.pos <= self@.toks.len() - 1,
                        more ==> (match sp_list_fl_items(toks, self@.pos, items@.map_values(|d: crate::value::Decimal| d@)) {
                            Ok(x) => target == (match sp_eat(toks, x.1, TokenType::RBrace) {
                                Ok(y) => Ok::<(ValModel, int), ErrModel>((ValModel::ListFl(x.0), y.1)),
                                Err(e) => Err(e),
                            }),
                            Err(e) => target == Err::<(ValModel, int), ErrModel>(e),
                        }),
                        more && items@.map_values(|d: crate::value::Decimal| d@).len() == 0 ==> cur_of(toks, self@.pos).kind
                            != TokenType::RBrace,
                        !more ==> cur_of(toks, self@.pos).kind == TokenType::RBrace && target == (
                        match sp_eat(toks, self@.pos, TokenType::RBrace) {
                            Ok(y) => Ok::<(ValModel, int), ErrModel>((ValModel::ListFl(items@.map_values(|d: crate::value::Decimal| d@)), y.1)),
                            Err(e) => Err(e),
                        }),
                    decreases toks.len() - self@.pos + (if more { 1int } else { 0int }),
                {
                    let ghost items_pre = items@.map_values(|d: crate::value::Decimal| d@);
                    let ekind = self.tokens[self.pos].ttype;
                    let d: crate::value::Decimal = if ekind == TokenType::Float {
                        let text = self.cur_text();
                        self.bump();
                        crate::value::Decimal::from_literal(text.as_str())
                    } else if ekind == TokenType::Number {
                        let text = self.cur_text();
                        self.bump();
                        let n = crate::numbers::text_to_i64(text.as_str());
                        crate::value::Decimal::from_i64(n)
                    } else {
                        let line = self.tokens[self.pos].line;
                        let column = self.tokens[self.pos].column;
                        return Err(
                            SyntaxError::new(
                                String::from_str("Expected float or number"),
                                Some(line),
                                Some(column),
                            ),
                        );
                    };
                    items.push(d);
                    proof {
                        assert(items@.map_values(|d: crate::value::Decimal| d@) =~= items_pre
                            .push(items@.last()@));
                    }
                    if self.tokens[self.pos].ttype == TokenType::Comma {
                        self.bump();
                    } else if self.tokens[self.pos].ttype != TokenType::RBrace {
                        let line = self.tokens[self.pos].line;
                        let column = self.tokens[self.pos].column;
                        return Err(
                            SyntaxError::new(
                                String::from_str("Expected comma or closing brace"),
                                Some(line),
                                Some(column),
                            ),
                        );
                    } else {
                        more = false;
                    }
                }
            } else {
                proof {
                    assert(sp_list_fl_items(toks, p3, items@.map_values(|d: crate::value::Decimal| d@)) == Ok::<_, ErrModel>((
                        items@.map_values(|d: crate::value::Decimal| d@),
                        p3,
                    )));
                }
            }
            match self.eat(TokenType::RBrace) {
                Err(e) => {
                    return Err(e);
                },
                Ok(_) => {},
            }
            Ok(Value::ListFl(items))
        } else if kind == TokenType::BoolKw {
            let mut items: Vec<bool> = Vec::new();
            let ghost target = sp_list_value(toks, old(self)@.pos);
            proof {
                assert(items@ =~= Seq::empty());
            }
            if self.tokens[self.pos].ttype != TokenType::RBrace {
                let mut more = true;
                while more
                    invariant
                        self.wf(),
                        self@.toks == toks,
                        toks == old(self)@.toks,
                        target == sp_list_value(toks, old(self)@.pos),
                        old(self)@.pos < p3 <= self@.pos <= self@.toks.len() - 1,
                        more ==> (match sp_list_bool_items(toks, self@.pos, items@) {
                            Ok(x) => target == (match sp_eat(toks, x.1, TokenType::RBrace) {
                                Ok(y) => Ok::<(ValModel, int), ErrModel>((ValModel::ListBool(x.0), y.1)),
                                Err(e) => Err(e),
                            }),
                            Err(e) => target == Err::<(ValModel, int), ErrModel>(e),
                        }),
                        more && items@.len() == 0 ==> cur_of(toks, self@.pos).kind
                            != TokenType::RBrace,
                        !more ==> cur_of(toks, self@.pos).kind == TokenType::RBrace && target == (
                        match sp_eat(toks, self@.pos, TokenType::RBrace) {
                            Ok(y) => Ok::<(ValModel, int), ErrModel>((ValModel::ListBool(items@), y.1)),
                            Err(e) => Err(e),
                        }),
                    decreases toks.len() - self@.pos + (if more { 1int } else { 0int }),
                {
                    let ghost items_pre = items@;
                    let v = match self.eat(TokenType::Boolean) {
                        Err(e) => {
                            return Err(e);
                        },
                        Ok(t) => t,
                    };
                    let b = match &v.value {
                        Some(s) => crate::chars::str_eq(s.as_str(), "true")
                            || crate::chars::str_eq(s.as_str(), "yes"),
                        None => false,
                    };
                    proof {
                        reveal_strlit("true");
                        reveal_strlit("yes");
                        if v@.text is Some {
                            assert(b == bool_of_text(ttext(v@)));
                        } else {
                            assert(ttext(v@).len() == 0);
                            assert(b == bool_of_text(ttext(v@)));
                        }
                    }
                    items.push(b);
                    proof {
                        assert(items@ =~= items_pre.push(b));
                    }
                    if self.tokens[self.pos].ttype == TokenType::Comma {
                        self.bump();
                    } else if self.tokens[self.pos].ttype != TokenType::RBrace {
                        let line = self.tokens[self.pos].line;
                        let column = self.tokens[self.pos].column;
                        return Err(
                            SyntaxError::new(
                                String::from_str("Expected comma or closing brace"),
                                Some(line),
                                Some(column),
                            ),
                        );
                    } else {
                        more = false;
                    }
                }
            } else {
                proof {
                    assert(sp_list_bool_items(toks, p3, items@) == Ok::<_, ErrModel>((
                        items@,
                        p3,
                    )));
                }
            }
            match self.eat(TokenType::RBrace) {
                Err(e) => {
                    return Err(e);
                },
                Ok(_) => {},
            }
            Ok(Value::ListBool(items))
        } else {
            let mut items: Vec<String> = Vec::new();
            let ghost target = sp_list_value(toks, old(self)@.pos);
            proof {
                assert(items@.map_values(|s: String| s@) =~= Seq::empty());
            }
            if self.tokens[self.pos].ttype != TokenType::RBrace {
                let mut more = true;
                while more
                    invariant
                        self.wf(),
                        self@.toks == toks,
                        toks == old(self)@.toks,
                        target == sp_list_value(toks, old(self)@.pos),
                        old(self)@.pos < p3 <= self@.pos <= self@.toks.len() - 1,
                        more ==> (match sp_list_str_items(toks, self@.pos, items@.map_values(|s: String| s@)) {
                            Ok(x) => target == (match sp_eat(toks, x.1, TokenType::RBrace) {
                                Ok(y) => Ok::<(ValModel, int), ErrModel>((ValModel::ListStr(x.0), y.1)),
                                Err(e) => Err(e),
                            }),
                            Err(e) => target == Err::<(ValModel, int), ErrModel>(e),
                        }),
                        more && items@.map_values(|s: String| s@).len() == 0 ==> cur_of(toks, self@.pos).kind
                            != TokenType::RBrace,
                        !more ==> cur_of(toks, self@.pos).kind == TokenType::RBrace && target == (
                        match sp_eat(toks, self@.pos, TokenType::RBrace) {
                            Ok(y) => Ok::<(ValModel, int), ErrModel>((ValModel::ListStr(items@.map_values(|s: String| s@)), y.1)),
                            Err(e) => Err(e),
                        }),
                    decreases toks.len() - self@.pos + (if more { 1int } else { 0int }),
                {
                    let ghost items_pre = items@.map_values(|s: String| s@);
                    let v = match self.eat(TokenType::String) {
                        Err(e) => {
                            return Err(e);
                        },
                        Ok(t) => t,
                    };
                    let sv = match v.value {
                        Some(s) => s,
                        None => String::new(),
                    };
                    items.push(sv);
                    proof {
                        assert(items@.map_values(|s: String| s@) =~= items_pre.push(
                            items@.last()@,
                        ));
                    }
                    if self.tokens[self.pos].ttype == TokenType::Comma {
                        self.bump();
                    } else if self.tokens[self.pos].ttype != TokenType::RBrace {
                        let line = self.tokens[self.pos].line;
                        let column = self.tokens[self.pos].column;
                        return Err(
                            SyntaxError::new(
                                String::from_str("Expected comma or closing brace"),
                                Some(line),
                                Some(column),
                            ),
                        );
                    } else {
                        more = false;
                    }
                }
            } else {
                proof {
                    assert(sp_list_str_items(toks, p3, items@.map_values(|s: String| s@)) == Ok::<_, ErrModel>((
                        items@.map_values(|s: String| s@),
                        p3,
                    )));
                }
            }
            match self.eat(TokenType::RBrace) {
                Err(e) => {
                    return Err(e);
                },
                Ok(_) => {},
            }
            Ok(Value::ListStr(items))
        }
    }

    fn parse_class_value(&mut self) -> (r: Result<Value, SyntaxError>)
        requires
            old(self).wf(),
        ensures
            final(self).wf(),
            final(self)@.toks == old(self)@.toks,
            match sp_class_value(old(self)@.toks, old(self)@.pos) {
                Ok((vm, p2)) => r matches Ok(v) && vmodel(v) == vm && final(self)@.pos == p2
                    && old(self)@.pos < p2,
                Err(e) => r matches Err(re) && re@ == e,
            },
        decreases self@.toks.len() - self@.pos, 2int,
    {
        let ghost toks = self@.toks;
        let ghost p0 = self@.pos;
        match self.eat(TokenType::LBrace) {
            Err(e) => {
                return Err(e);
            },
            Ok(_) => {},
        }
        let ghost p1 = self@.pos;
        let mut map: Vec<(String, Value)> = Vec::new();
        proof {
            assert(entries_model(map@) =~= Seq::<(Seq<char>, ValModel)>::empty());
        }
        while self.cur().ttype != TokenType::RBrace
            invariant
                self.wf(),
                self@.toks == toks,
                toks == old(self)@.toks,
                p0 == old(self)@.pos,
                p0 < p1 <= self@.pos <= self@.toks.len() - 1,
                match sp_params(toks, self@.pos, TokenType::RBrace, entries_model(map@)) {
                    Ok(x) => sp_class_value(toks, p0) == (match sp_eat(
                        toks,
                        x.1,
                        TokenType::RBrace,
                    ) {
                        Ok(y) => Ok::<(ValModel, int), ErrModel>((ValModel::Class(x.0), y.1)),
                        Err(e) => Err(e),
                    }),
                    Err(e) => sp_class_value(toks, p0) == Err::<(ValModel, int), ErrModel>(e),
                },
            decreases toks.len() - self@.pos,
        {
            let (n, v) = match self.parse_parameter() {
                Err(e) => {
                    return Err(e);
                },
                Ok(nv) => nv,
            };
            upsert_entry(&mut map, n, v);
        }
        match self.eat(TokenType::RBrace) {
            Err(e) => {
                return Err(e);
            },
            Ok(_) => {},
        }
        Ok(Value::Class(map))
    }

    fn parse_parameter(&mut self) -> (r: Result<(String, Value), SyntaxError>)
        requires
            old(self).wf(),
        ensures
            final(self).wf(),
            final(self)@.toks == old(self)@.toks,
            match sp_parameter(old(self)@.toks, old(self)@.pos) {
                Ok(x) => r matches Ok(nv) && nv.0@ == x.0.0 && vmodel(nv.1) == x.0.1
                    && final(self)@.pos == x.1 && old(self)@.pos < x.1,
                Err(e) => r matches Err(re) && re@ == e,
            },
        decreases self@.toks.len() - self@.pos, 3int,
    {
        let kind = self.tokens[self.pos].ttype;
        let name_ok = kind == TokenType::Identifier || kind == TokenType::BoolKw || kind
            == TokenType::StrKw || kind == TokenType::NumKw || kind == TokenType::FlKw || kind
            == TokenType::MlKw || kind == TokenType::ClassKw || kind == TokenType::ListKw || kind
            == TokenType::DynamicKw || kind == TokenType::Number || kind == TokenType::String;
        if !name_ok {
            let line = self.tokens[self.pos].line;
            let column = self.tokens[self.pos].column;
            let mut msg = String::new();
            msg.append("Expected identifier or keyword, got ");
            msg.append(kind_name(kind));
            return Err(SyntaxError::new(msg, Some(line), Some(column)));
        }
        let name = self.cur_text();
        self.bump();
        match self.eat(TokenType::DoubleColon) {
            Err(e) => {
                return Err(e);
            },
            Ok(_) => {},
        }
        let tkind = self.tokens[self.pos].ttype;
        let value: Value = if tkind == TokenType::BoolKw {
            self.bump();
            match self.parse_bool_value() {
                Err(e) => {
                    return Err(e);
                },
                Ok(v) => v,
            }
        } else if tkind == TokenType::StrKw {
            self.bump();
            match self.parse_str_value() {
                Err(e) => {
                    return Err(e);
                },
                Ok(v) => v,
            }
        } else if tkind == TokenType::NumKw {
            self.bump();
            match self.parse_num_value() {
                Err(e) => {
                    return Err(e);
                },
                Ok(v) => v,
            }
        } else if tkind == TokenType::FlKw {
            self.bump();
            match self.parse_fl_value() {
                Err(e) => {
                    return Err(e);
                },
                Ok(v) => v,
            }
        } else if tkind == TokenType::MlKw {
            self.bump();
            match self.parse_ml_value() {
                Err(e) => {
                    return Err(e);
                },
                Ok(v) => v,
            }
        } else if tkind == TokenType::ClassKw {
            self.bump();
            match self.parse_class_value() {
                Err(e) => {
                    return Err(e);
                },
                Ok(v) => v,
            }
        } else if tkind == TokenType::ListKw {
            self.bump();
            match self.parse_list_value() {
                Err(e) => {
                    return Err(e);
                },
                Ok(v) => v,
            }
        } else if tkind == TokenType::DynamicKw {
            self.bump();
            match self.parse_dynamic_value() {
                Err(e) => {
                    return Err(e);
                },
                Ok(v) => v,
            }
        } else {
            let line = self.tokens[self.pos].line;
            let column = self.tokens[self.pos].column;
            let mut msg = String::new();
            msg.append("Unknown type: ");
            match &self.tokens[self.pos].value {
                Some(v) => {
                    msg.append("Some(\"");
                    msg.append(v.as_str());
                    msg.append("\")");
                },
                None => {
                    msg.append("None");
                },
            }
            proof {
                assert(msg@ =~= "Unknown type: "@ + dbg_opt(self@.toks[self@.pos].text));
            }
            return Err(SyntaxError::new(msg, Some(line), Some(column)));
        };
        Ok((name, value))
    }

    /// Parses the whole token sequence into a mapping from declaration name
    /// to value: declarations folded in order, a repeated name replacing the
    /// earlier value in place.
    pub fn parse(self) -> (r: Result<Vec<(String, Value)>, SyntaxError>)
        requires
            self.wf(),
        ensures
            match spec_parse(self@.toks, self@.pos) {
                Ok((es, p2)) => r matches Ok(m) && entries_model(m@) == es,
                Err(e) => r matches Err(re) && re@ == e,
            },
    {
        let ghost g = self@;
        let mut me = self;
        let mut cfg: Vec<(String, Value)> = Vec::new();
        proof {
            assert(entries_model(cfg@) =~= Seq::<(Seq<char>, ValModel)>::empty());
        }
        while me.cur().ttype != TokenType::Eof
            invariant
                me.wf(),
                me@.toks == g.toks,
                g == self@,
                g.pos <= me@.pos <= me@.toks.len() - 1,
                sp_params(g.toks, g.pos, TokenType::Eof, Seq::empty()) == sp_params(
                    g.toks,
                    me@.pos,
                    TokenType::Eof,
                    entries_model(cfg@),
                ),
            decreases g.toks.len() - me@.pos,
        {
            let (n, v) = match me.parse_parameter() {
                Err(e) => {
                    return Err(e);
                },
                Ok(nv) => nv,
            };
            upsert_entry(&mut cfg, n, v);
        }
        Ok(cfg)
    }
}

} // verus!
