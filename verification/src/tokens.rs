//! Lexical tokens: the kinds the grammar distinguishes and the value-bearing
//! token record with its 1-based source position.

use vstd::prelude::*;

verus! {

#[derive(Debug, Clone, Copy, PartialEq, Eq, Structural)]
pub enum TokenType {
    Identifier,
    DoubleColon,
    BoolKw,
    StrKw,
    NumKw,
    FlKw,
    MlKw,
    ClassKw,
    ListKw,
    DynamicKw,
    LBrace,
    RBrace,
    LParen,
    RParen,
    Comma,
    String,
    MultilineString,
    Number,
    Float,
    Boolean,
    Comment,
    Newline,
    Eof,
}

/// The mathematical content of a token: its kind, its text (decoded for
/// strings, raw for everything else), and where it began in the source.
pub struct TokModel {
    pub kind: TokenType,
    pub text: Option<Seq<char>>,
    pub line: int,
    pub col: int,
}

#[derive(Debug, Clone)]
pub struct Token {
    pub ttype: TokenType,
    pub value: Option<String>,
    pub line: usize,
    pub column: usize,
}

impl View for Token {
    type V = TokModel;

    open spec fn view(&self) -> TokModel {
        TokModel {
            kind: self.ttype,
            text: match self.value {
                Some(s) => Some(s@),
                None => None,
            },
            line: self.line as int,
            col: self.column as int,
        }
    }
}

/// A token model with a text.
pub open spec fn tok(kind: TokenType, text: Seq<char>, line: int, col: int) -> TokModel {
    TokModel { kind, text: Some(text), line, col }
}

/// The sequence of models of a token vector.
pub open spec fn toks_model(v: Seq<Token>) -> Seq<TokModel> {
    v.map_values(|t: Token| t@)
}

pub broadcast proof fn lemma_toks_model_len(v: Seq<Token>)
    ensures
        (#[trigger] toks_model(v)).len() == v.len(),
{
}

pub broadcast proof fn lemma_toks_model_index(v: Seq<Token>, i: int)
    requires
        0 <= i < v.len(),
    ensures
        #[trigger] toks_model(v)[i] == v[i]@,
{
}

impl Token {
    pub fn new(ttype: TokenType, value: Option<String>, line: usize, column: usize) -> (t: Self)
        ensures
            t@ == (TokModel {
                kind: ttype,
                text: match value {
                    Some(s) => Some(s@),
                    None => None,
                },
                line: line as int,
                col: column as int,
            }),
    {
        Self { ttype, value, line, column }
    }
}

} // verus!
