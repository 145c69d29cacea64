//! A small typed configuration language.
//!
//! Text is tokenized by [`lexer::Lexer`], parsed by [`parser::Parser`] into a
//! mapping from declaration names to [`value::Value`] trees, and a mapping
//! can be rendered back to the textual notation by
//! [`serializer::Serializer`].

pub mod chars;
pub mod errors;
pub mod lexer;
pub mod numbers;
pub mod parser;
pub mod roundtrip;
pub mod serializer;
pub mod tokens;
pub mod value;

pub use errors::ParseError;
pub use errors::SyntaxError;
pub use lexer::Lexer;
pub use parser::Parser;
pub use serializer::Serializer;
pub use tokens::Token;
pub use tokens::TokenType;
pub use value::Decimal;
pub use value::Value;

use vstd::prelude::*;

use crate::errors::ErrModel;
use crate::lexer::{lex_from, skip_blanks, spec_lex};
use crate::parser::{filtered, spec_parse};
use crate::serializer::{edepth, ser_map};
use crate::tokens::{toks_model, TokModel};
use crate::value::{dyn_ok_entries, entries_model, ValModel};

verus! {

/// Lexing always ends the token sequence with the end-of-input marker.
pub proof fn lemma_lex_ends_eof(s: Seq<char>, pos: int, line: int, col: int)
    ensures
        lex_from(s, pos, line, col) matches Ok(ts) ==> ts.len() >= 1 && ts.last().kind
            == TokenType::Eof,
    decreases s.len() - pos,
{
    let p = skip_blanks(s, pos);
    let c1 = col + (p - pos);
    if p >= s.len() || p < pos {
    } else {
        let c = s[p];
        if c == '[' {
            match lexer::scan_to(s, p + 1, ']', line, c1 + 1) {
                Ok((stop, l2, c2)) => {
                    if p < stop + 1 <= s.len() {
                        lemma_lex_ends_eof(s, stop + 1, l2, c2 + 1);
                    }
                },
                Err(_) => {},
            }
        } else if c == '\n' {
            lemma_lex_ends_eof(s, p + 1, line + 1, 1);
        } else if c == ':' && p + 1 < s.len() && s[p + 1] == ':' {
            lemma_lex_ends_eof(s, p + 2, line, c1 + 2);
        } else if c == '{' || c == '}' || c == '(' || c == ')' || c == ',' {
            lemma_lex_ends_eof(s, p + 1, line, c1 + 1);
        } else if c == '"' {
            match lexer::scan_qstring(s, p + 1, line, c1 + 1) {
                Ok((text, e, l2, c2)) => {
                    if p < e <= s.len() {
                        lemma_lex_ends_eof(s, e, l2, c2);
                    }
                },
                Err(_) => {},
            }
        } else if c == '\'' {
            match lexer::scan_to(s, p + 1, '\'', line, c1 + 1) {
                Ok((stop, l2, c2)) => {
                    if p < stop + 1 <= s.len() {
                        lemma_lex_ends_eof(s, stop + 1, l2, c2 + 1);
                    }
                },
                Err(_) => {},
            }
        } else if c == '-' && p + 1 < s.len() && chars::is_digit(s[p + 1]) {
            let end = lexer::scan_num_end(s, p + 1, false);
            if p < end <= s.len() {
                lemma_lex_ends_eof(s, end, line, c1 + (end - p));
            }
        } else if chars::is_digit(c) {
            let de = lexer::scan_digits(s, p);
            if de < s.len() && (chars::is_alpha(s[de]) || s[de] == '_') {
                let end = lexer::scan_ident_end(s, de);
                if p < end <= s.len() {
                    lemma_lex_ends_eof(s, end, line, c1 + (end - p));
                }
            } else {
                let end = lexer::scan_num_end(s, p, false);
                if p < end <= s.len() {
                    lemma_lex_ends_eof(s, end, line, c1 + (de - p) + (end - p));
                }
            }
        } else if chars::is_alpha(c) || c == '_' {
            let end = lexer::scan_ident_end(s, p);
            if p < end <= s.len() {
                lemma_lex_ends_eof(s, end, line, c1 + (end - p));
            }
        } else {
        }
    }
}

/// Filtering newlines and comments out keeps the end-of-input marker last.
pub proof fn lemma_filtered_ends_eof(ts: Seq<TokModel>)
    requires
        ts.len() >= 1,
        ts.last().kind == TokenType::Eof,
    ensures
        filtered(ts).len() >= 1,
        filtered(ts).last().kind == TokenType::Eof,
{
    assert(filtered(ts) == filtered(ts.drop_last()).push(ts.last()));
}

/// What parsing a text yields: the token sequence of the lexer, newlines and
/// comments dropped, folded into a mapping by the grammar; or the first
/// error of either stage.
pub open spec fn spec_loads(text: Seq<char>) -> Result<Seq<(Seq<char>, ValModel)>, ErrModel> {
    match spec_lex(text) {
        Ok(ts) => match spec_parse(filtered(ts), 0) {
            Ok((es, _pos)) => Ok(es),
            Err(e) => Err(e),
        },
        Err(e) => Err(e),
    }
}

/// Parses a configuration text into a mapping from declaration names to
/// values. Declarations are folded in order; a repeated name replaces the
/// earlier value in place.
pub fn loads(text: &str) -> (r: Result<Vec<(String, Value)>, SyntaxError>)
    requires
        2 * text@.len() + 4 <= usize::MAX,
    ensures
        match spec_loads(text@) {
            Ok(es) => r matches Ok(m) && entries_model(m@) == es,
            Err(e) => r matches Err(re) && re@ == e,
        },
{
    let lx = Lexer::new(text);
    let tokens = match lx.tokenize() {
        Ok(t) => t,
        Err(e) => {
            return Err(e);
        },
    };
    proof {
        lemma_lex_ends_eof(text@, 0, 1, 1);
        match spec_lex(text@) {
            Ok(ts) => {
                assert(Seq::<TokModel>::empty() + ts =~= ts);
                assert(toks_model(tokens@) == ts);
                lemma_filtered_ends_eof(ts);
            },
            Err(_) => {
                assert(false);
            },
        }
    }
    let p = Parser::new(tokens);
    p.parse()
}

/// What serializing a mapping yields, at an indent width (zero selects the
/// default of four spaces).
pub open spec fn spec_dumps(es: Seq<(Seq<char>, ValModel)>, indent: int) -> Seq<char> {
    ser_map(
        es,
        if indent == 0 {
            4int
        } else {
            indent
        },
    )
}

/// Renders a mapping as configuration text: one line per declaration and a
/// trailing newline. Every `dynamic` wrapper must hold a scalar, as parsed
/// mappings do.
pub fn dumps(data: &Vec<(String, Value)>, indent: usize) -> (out: String)
    requires
        dyn_ok_entries(entries_model(data@)),
        edepth(entries_model(data@)) <= usize::MAX,
    ensures
        out@ == spec_dumps(entries_model(data@), indent as int),
{
    Serializer::new(indent).serialize_map(data)
}

/// A parsed configuration is a genuine mapping: its declaration names are
/// unique, a repeated declaration having replaced the earlier one.
pub proof fn lemma_loads_unique(text: Seq<char>)
    ensures
        spec_loads(text) matches Ok(es) ==> parser::unique_keys(es),
{
    match spec_lex(text) {
        Ok(ts) => {
            parser::lemma_parse_unique(filtered(ts), 0);
        },
        Err(_) => {},
    }
}

/// Serializing an empty mapping yields exactly one newline character.
pub proof fn lemma_dumps_empty(indent: int)
    ensures
        spec_dumps(Seq::<(Seq<char>, ValModel)>::empty(), indent) == "\n"@,
{
    assert(Seq::<char>::empty() + "\n"@ =~= "\n"@);
}

} // verus!
