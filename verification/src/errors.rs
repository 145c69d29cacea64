//! The two error kinds: syntax errors from the lexer and parser, with an
//! optional 1-based source position, and value-construction errors from the
//! serializer.

use vstd::prelude::*;

verus! {

/// The mathematical content of a syntax error.
pub struct ErrModel {
    pub msg: Seq<char>,
    pub line: Option<int>,
    pub col: Option<int>,
}

/// An error model at a known position.
pub open spec fn err_at(msg: Seq<char>, line: int, col: int) -> ErrModel {
    ErrModel { msg, line: Some(line), col: Some(col) }
}

#[derive(Debug)]
pub struct SyntaxError {
    pub message: String,
    pub line: Option<usize>,
    pub column: Option<usize>,
}

impl View for SyntaxError {
    type V = ErrModel;

    open spec fn view(&self) -> ErrModel {
        ErrModel {
            msg: self.message@,
            line: match self.line {
                Some(l) => Some(l as int),
                None => None,
            },
            col: match self.column {
                Some(c) => Some(c as int),
                None => None,
            },
        }
    }
}

impl SyntaxError {
    pub fn new(message: String, line: Option<usize>, column: Option<usize>) -> (e: Self)
        ensures
            e@ == (ErrModel {
                msg: message@,
                line: match line {
                    Some(l) => Some(l as int),
                    None => None,
                },
                col: match column {
                    Some(c) => Some(c as int),
                    None => None,
                },
            }),
    {
        Self { message, line, column }
    }

    /// The error rendered as text, in place of a `Display` implementation.
    pub fn describe(&self) -> (s: String)
        ensures
            self@.line is Some && self@.col is Some ==> s@ == "Syntax error at line "@
                + crate::numbers::int_literal(self@.line->0) + ", column "@
                + crate::numbers::int_literal(self@.col->0) + ": "@ + self@.msg,
            !(self@.line is Some && self@.col is Some) ==> s@ == "Syntax error: "@ + self@.msg,
    {
        match (self.line, self.column) {
            (Some(l), Some(c)) => {
                let mut s = String::new();
                s.append("Syntax error at line ");
                let lv = crate::numbers::u64_to_chars(l as u64);
                s.append(crate::chars::chars_to_string(&lv).as_str());
                s.append(", column ");
                let cv = crate::numbers::u64_to_chars(c as u64);
                s.append(crate::chars::chars_to_string(&cv).as_str());
                s.append(": ");
                s.append(self.message.as_str());
                s
            },
            _ => {
                let mut s = String::new();
                s.append("Syntax error: ");
                s.append(self.message.as_str());
                s
            },
        }
    }
}

#[derive(Debug)]
pub struct ParseError {
    pub message: String,
}

impl View for ParseError {
    type V = Seq<char>;

    open spec fn view(&self) -> Seq<char> {
        self.message@
    }
}

impl ParseError {
    pub fn new(message: String) -> (e: Self)
        ensures
            e@ == message@,
    {
        Self { message }
    }

    /// The error rendered as text, in place of a `Display` implementation.
    pub fn describe(&self) -> (s: String)
        ensures
            s@ == "Parse error: "@ + self@,
    {
        let mut s = String::new();
        s.append("Parse error: ");
        s.append(self.message.as_str());
        s
    }
}

} // verus!
