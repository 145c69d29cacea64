//! The lexer: turns source text into a token sequence terminated by an
//! end-of-input marker, or fails with a syntax error carrying the 1-based
//! line and column of the offending position.
//!
//! The spec functions in this module define lexing over the character
//! sequence; `Lexer::tokenize` is proved to return exactly their result.

use vstd::prelude::*;

use crate::chars::{is_alpha, is_blank, is_digit, is_ident_char, is_trim_ws};
use crate::errors::{err_at, ErrModel, SyntaxError};
use crate::tokens::{tok, toks_model, TokModel, Token, TokenType};

verus! {

/// Position after skipping spaces and tabs (the column advances by the same
/// amount; these characters never end a line).
pub open spec fn skip_blanks(s: Seq<char>, pos: int) -> int
    decreases s.len() - pos,
{
    if 0 <= pos < s.len() && is_blank(s[pos]) {
        skip_blanks(s, pos + 1)
    } else {
        pos
    }
}

/// What an escaped character decodes to inside a double-quoted string:
/// `\n` and `\t` become control characters, anything else stands for itself
/// (so `\"` and `\\` decode to the quote and the backslash).
pub open spec fn esc_char(c: char) -> char {
    if c == 'n' {
        '\n'
    } else if c == 't' {
        '\t'
    } else {
        c
    }
}

/// Scans a double-quoted string body from `pos` (just past the opening
/// quote). Returns the decoded text, the position just past the closing
/// quote, and the line and column there; or the error for an unterminated
/// string, at the position where the input ran out.
pub open spec fn scan_qstring(s: Seq<char>, pos: int, line: int, col: int) -> Result<
    (Seq<char>, int, int, int),
    ErrModel,
>
    decreases s.len() - pos,
{
    if pos < 0 || pos >= s.len() {
        Err(err_at("Unclosed string"@, line, col))
    } else if s[pos] == '"' {
        Ok((Seq::empty(), pos + 1, line, col + 1))
    } else if s[pos] == '\\' {
        if pos + 1 >= s.len() {
            Err(err_at("Unexpected end of string after backslash"@, line, col + 1))
        } else {
            let c = s[pos + 1];
            let l2 = if c == '\n' {
                line + 1
            } else {
                line
            };
            let c2 = if c == '\n' {
                1
            } else {
                col + 2
            };
            match scan_qstring(s, pos + 2, l2, c2) {
                Ok((t, e, l3, c3)) => Ok((seq![esc_char(c)] + t, e, l3, c3)),
                Err(m) => Err(m),
            }
        }
    } else {
        let c = s[pos];
        let l2 = if c == '\n' {
            line + 1
        } else {
            line
        };
        let c2 = if c == '\n' {
            1
        } else {
            col + 1
        };
        match scan_qstring(s, pos + 1, l2, c2) {
            Ok((t, e, l3, c3)) => Ok((seq![c] + t, e, l3, c3)),
            Err(m) => Err(m),
        }
    }
}

/// Scans forward to the next occurrence of `stop`. Returns its index and the
/// line and column at it; or, if the input runs out first, the line and
/// column at the end of input.
pub open spec fn scan_to(s: Seq<char>, pos: int, stop: char, line: int, col: int) -> Result<
    (int, int, int),
    (int, int),
>
    decreases s.len() - pos,
{
    if pos < 0 || pos >= s.len() {
        Err((line, col))
    } else if s[pos] == stop {
        Ok((pos, line, col))
    } else if s[pos] == '\n' {
        scan_to(s, pos + 1, stop, line + 1, 1)
    } else {
        scan_to(s, pos + 1, stop, line, col + 1)
    }
}

/// The end of the run of digits starting at `pos`.
pub open spec fn scan_digits(s: Seq<char>, pos: int) -> int
    decreases s.len() - pos,
{
    if 0 <= pos < s.len() && is_digit(s[pos]) {
        scan_digits(s, pos + 1)
    } else {
        pos
    }
}

/// The end of a number literal starting at `pos`: digits with at most one
/// embedded dot (a second dot ends the literal).
pub open spec fn scan_num_end(s: Seq<char>, pos: int, has_dot: bool) -> int
    decreases s.len() - pos,
{
    if 0 <= pos < s.len() && is_digit(s[pos]) {
        scan_num_end(s, pos + 1, has_dot)
    } else if 0 <= pos < s.len() && s[pos] == '.' && !has_dot {
        scan_num_end(s, pos + 1, true)
    } else {
        pos
    }
}

/// The end of the run of identifier characters starting at `pos`.
pub open spec fn scan_ident_end(s: Seq<char>, pos: int) -> int
    decreases s.len() - pos,
{
    if 0 <= pos < s.len() && is_ident_char(s[pos]) {
        scan_ident_end(s, pos + 1)
    } else {
        pos
    }
}

/// Whitespace stripped from the front, as `str::trim` strips it.
pub open spec fn trim_front(s: Seq<char>) -> Seq<char>
    decreases s.len(),
{
    if s.len() > 0 && is_trim_ws(s[0]) {
        trim_front(s.skip(1))
    } else {
        s
    }
}

/// Whitespace stripped from the back, as `str::trim` strips it.
pub open spec fn trim_back(s: Seq<char>) -> Seq<char>
    decreases s.len(),
{
    if s.len() > 0 && is_trim_ws(s.last()) {
        trim_back(s.drop_last())
    } else {
        s
    }
}

/// Whitespace stripped from both ends.
pub open spec fn trim(s: Seq<char>) -> Seq<char> {
    trim_back(trim_front(s))
}

/// The token kind of an identifier-shaped word: one of the reserved words,
/// a boolean spelling, or a plain identifier.
pub open spec fn kw_kind(t: Seq<char>) -> TokenType {
    if t == "bool"@ {
        TokenType::BoolKw
    } else if t == "str"@ {
        TokenType::StrKw
    } else if t == "num"@ {
        TokenType::NumKw
    } else if t == "fl"@ {
        TokenType::FlKw
    } else if t == "ml"@ {
        TokenType::MlKw
    } else if t == "class"@ {
        TokenType::ClassKw
    } else if t == "list"@ {
        TokenType::ListKw
    } else if t == "dynamic"@ {
        TokenType::DynamicKw
    } else if t == "true"@ || t == "false"@ || t == "yes"@ || t == "no"@ {
        TokenType::Boolean
    } else {
        TokenType::Identifier
    }
}

/// The decoded text of a boolean word: `true` and `yes` mean true.
pub open spec fn bool_text(t: Seq<char>) -> Seq<char> {
    if t == "true"@ || t == "yes"@ {
        "true"@
    } else {
        "false"@
    }
}

/// A placeholder error for branches that cannot be reached.
pub open spec fn dead_err() -> ErrModel {
    ErrModel { msg: Seq::empty(), line: None, col: None }
}

/// Lexing from a position: the token sequence of the rest of the input,
/// ending with an end-of-input marker, or the first lexical error.
pub open spec fn lex_from(s: Seq<char>, pos: int, line: int, col: int) -> Result<
    Seq<TokModel>,
    ErrModel,
>
    decreases s.len() - pos,
{
    let p = skip_blanks(s, pos);
    let c1 = col + (p - pos);
    if p >= s.len() {
        Ok(seq![TokModel { kind: TokenType::Eof, text: None, line, col: c1 }])
    } else if p < pos {
        Err(dead_err())
    } else {
        let c = s[p];
        if c == '[' {
            match scan_to(s, p + 1, ']', line, c1 + 1) {
                Ok((stop, l2, c2)) => {
                    let t = tok(TokenType::Comment, trim(s.subrange(p + 1, stop)), line, c1);
                    if p < stop + 1 <= s.len() {
                        match lex_from(s, stop + 1, l2, c2 + 1) {
                            Ok(ts) => Ok(seq![t] + ts),
                            Err(m) => Err(m),
                        }
                    } else {
                        Err(dead_err())
                    }
                },
                Err((l2, c2)) => Err(err_at("Unclosed comment"@, l2, c2)),
            }
        } else if c == '\n' {
            let t = tok(TokenType::Newline, "\n"@, line, c1);
            match lex_from(s, p + 1, line + 1, 1) {
                Ok(ts) => Ok(seq![t] + ts),
                Err(m) => Err(m),
            }
        } else if c == ':' && p + 1 < s.len() && s[p + 1] == ':' {
            let t = tok(TokenType::DoubleColon, "::"@, line, c1);
            match lex_from(s, p + 2, line, c1 + 2) {
                Ok(ts) => Ok(seq![t] + ts),
                Err(m) => Err(m),
            }
        } else if c == '{' || c == '}' || c == '(' || c == ')' || c == ',' {
            let text = if c == '{' {
                "{"@
            } else if c == '}' {
                "}"@
            } else if c == '(' {
                "("@
            } else if c == ')' {
                ")"@
            } else {
                ","@
            };
            let kind = if c == '{' {
                TokenType::LBrace
            } else if c == '}' {
                TokenType::RBrace
            } else if c == '(' {
                TokenType::LParen
            } else if c == ')' {
                TokenType::RParen
            } else {
                TokenType::Comma
            };
            let t = tok(kind, text, line, c1);
            match lex_from(s, p + 1, line, c1 + 1) {
                Ok(ts) => Ok(seq![t] + ts),
                Err(m) => Err(m),
            }
        } else if c == '"' {
            match scan_qstring(s, p + 1, line, c1 + 1) {
                Ok((text, e, l2, c2)) => {
                    let t = tok(TokenType::String, text, line, c1);
                    if p < e <= s.len() {
                        match lex_from(s, e, l2, c2) {
                            Ok(ts) => Ok(seq![t] + ts),
                            Err(m) => Err(m),
                        }
                    } else {
                        Err(dead_err())
                    }
                },
                Err(m) => Err(m),
            }
        } else if c == '\'' {
            match scan_to(s, p + 1, '\'', line, c1 + 1) {
                Ok((stop, l2, c2)) => {
                    let t = tok(TokenType::MultilineString, s.subrange(p + 1, stop), line, c1);
                    if p < stop + 1 <= s.len() {
                        match lex_from(s, stop + 1, l2, c2 + 1) {
                            Ok(ts) => Ok(seq![t] + ts),
                            Err(m) => Err(m),
                        }
                    } else {
                        Err(dead_err())
                    }
                },
                Err((l2, c2)) => Err(err_at("Unclosed multiline string"@, l2, c2)),
            }
        } else if c == '-' && p + 1 < s.len() && is_digit(s[p + 1]) {
            let end = scan_num_end(s, p + 1, false);
            let text = s.subrange(p, end);
            let kind = if text.contains('.') {
                TokenType::Float
            } else {
                TokenType::Number
            };
            let t = tok(kind, text, line, c1);
            if p < end <= s.len() {
                match lex_from(s, end, line, c1 + (end - p)) {
                    Ok(ts) => Ok(seq![t] + ts),
                    Err(m) => Err(m),
                }
            } else {
                Err(dead_err())
            }
        } else if is_digit(c) {
            let de = scan_digits(s, p);
            if de < s.len() && (is_alpha(s[de]) || s[de] == '_') {
                let end = scan_ident_end(s, de);
                let t = tok(TokenType::Identifier, s.subrange(p, end), line, c1);
                if p < end <= s.len() {
                    match lex_from(s, end, line, c1 + (end - p)) {
                        Ok(ts) => Ok(seq![t] + ts),
                        Err(m) => Err(m),
                    }
                } else {
                    Err(dead_err())
                }
            } else {
                // a plain number: the digit run was scanned once to look for a
                // following identifier character, and its length counts into
                // the column a second time when the number itself is read
                let end = scan_num_end(s, p, false);
                let text = s.subrange(p, end);
                let kind = if text.contains('.') {
                    TokenType::Float
                } else {
                    TokenType::Number
                };
                let t = tok(kind, text, line, c1 + (de - p));
                if p < end <= s.len() {
                    match lex_from(s, end, line, c1 + (de - p) + (end - p)) {
                        Ok(ts) => Ok(seq![t] + ts),
                        Err(m) => Err(m),
                    }
                } else {
                    Err(dead_err())
                }
            }
        } else if is_alpha(c) || c == '_' {
            let end = scan_ident_end(s, p);
            let text = s.subrange(p, end);
            let kind = kw_kind(text);
            let t = if kind == TokenType::Boolean {
                tok(TokenType::Boolean, bool_text(text), line, c1)
            } else {
                tok(kind, text, line, c1)
            };
            if p < end <= s.len() {
                match lex_from(s, end, line, c1 + (end - p)) {
                    Ok(ts) => Ok(seq![t] + ts),
                    Err(m) => Err(m),
                }
            } else {
                Err(dead_err())
            }
        } else {
            Err(err_at("Unexpected character"@, line, c1))
        }
    }
}

/// The result of lexing a whole text.
pub open spec fn spec_lex(s: Seq<char>) -> Result<Seq<TokModel>, ErrModel> {
    lex_from(s, 0, 1, 1)
}

/// The lexer's state: the text, the cursor with its 1-based position, and
/// the tokens produced so far.
pub struct LexModel {
    pub text: Seq<char>,
    pub pos: int,
    pub line: int,
    pub col: int,
    pub toks: Seq<TokModel>,
}

pub struct Lexer {
    text: Vec<char>,
    pos: usize,
    line: usize,
    col: usize,
    tokens: Vec<Token>,
}

impl View for Lexer {
    type V = LexModel;

    closed spec fn view(&self) -> LexModel {
        LexModel {
            text: self.text@,
            pos: self.pos as int,
            line: self.line as int,
            col: self.col as int,
            toks: toks_model(self.tokens@),
        }
    }
}

impl Lexer {
    /// The cursor is inside the text and the position counters have not
    /// drifted further than scanning can take them.
    pub open spec fn wf(&self) -> bool {
        &&& 2 * self@.text.len() + 4 <= usize::MAX
        &&& self@.pos <= self@.text.len()
        &&& 1 <= self@.line <= self@.pos + 1
        &&& 1 <= self@.col <= 2 * self@.pos + 2
    }

    pub fn new(text: &str) -> (l: Self)
        requires
            2 * text@.len() + 4 <= usize::MAX,
        ensures
            l.wf(),
            l@ == (LexModel {
                text: text@,
                pos: 0,
                line: 1,
                col: 1,
                toks: Seq::<TokModel>::empty(),
            }),
    {
        let l = Self {
            text: crate::chars::str_to_chars(text),
            pos: 0,
            line: 1,
            col: 1,
            tokens: Vec::new(),
        };
        proof {
            assert(toks_model(l.tokens@) =~= Seq::<TokModel>::empty());
        }
        l
    }

    fn peek(&self, off: usize) -> (r: Option<char>)
        requires
            self.wf(),
            off <= 2,
        ensures
            self@.pos + off < self@.text.len() ==> r == Some(self@.text[self@.pos + off]),
            self@.pos + off >= self@.text.len() ==> r is None,
    {
        if self.pos + off < self.text.len() {
            Some(self.text[self.pos + off])
        } else {
            None
        }
    }

    fn advance(&mut self) -> (r: Option<char>)
        requires
            old(self).wf(),
        ensures
            final(self).wf(),
            final(self)@.text == old(self)@.text,
            final(self)@.toks == old(self)@.toks,
            old(self)@.pos < old(self)@.text.len() ==> {
                let c = old(self)@.text[old(self)@.pos];
                &&& r == Some(c)
                &&& final(self)@.pos == old(self)@.pos + 1
                &&& final(self)@.line == if c == '\n' {
                    old(self)@.line + 1
                } else {
                    old(self)@.line
                }
                &&& final(self)@.col == if c == '\n' {
                    1int
                } else {
                    old(self)@.col + 1
                }
            },
            old(self)@.pos >= old(self)@.text.len() ==> r is None && *final(self) == *old(self),
    {
        if self.pos < self.text.len() {
            let b = self.text[self.pos];
            self.pos = self.pos + 1;
            if b == '\n' {
                self.line = self.line + 1;
                self.col = 1;
            } else {
                self.col = self.col + 1;
            }
            Some(b)
        } else {
            None
        }
    }

    fn add(&mut self, t: TokenType, value: Option<String>, line: usize, col: usize)
        ensures
            final(self)@.text == old(self)@.text,
            final(self)@.pos == old(self)@.pos,
            final(self)@.line == old(self)@.line,
            final(self)@.col == old(self)@.col,
            final(self).wf() == old(self).wf(),
            final(self)@.toks == old(self)@.toks.push(
                TokModel {
                    kind: t,
                    text: match value {
                        Some(s) => Some(s@),
                        None => None,
                    },
                    line: line as int,
                    col: col as int,
                },
            ),
    {
        let tok = Token::new(t, value, line, col);
        self.tokens.push(tok);
        proof {
            assert(toks_model(self.tokens@) =~= toks_model(old(self).tokens@).push(tok@));
        }
    }

    fn skip_ws(&mut self)
        requires
            old(self).wf(),
        ensures
            final(self).wf(),
            final(self)@.text == old(self)@.text,
            final(self)@.toks == old(self)@.toks,
            final(self)@.line == old(self)@.line,
            final(self)@.pos == skip_blanks(final(self)@.text, old(self)@.pos),
            final(self)@.col == old(self)@.col + (final(self)@.pos - old(self)@.pos),
    {
        let ghost s = self@.text;
        let ghost p0 = self@.pos;
        let ghost c0 = self@.col;
        while self.pos < self.text.len() && crate::chars::blank(self.text[self.pos])
            invariant
                self.wf(),
                self@.text == s,
                self@.toks == old(self)@.toks,
                self@.line == old(self)@.line,
                self@.col == c0 + (self@.pos - p0),
                skip_blanks(s, p0) == skip_blanks(s, self@.pos),
            decreases self@.text.len() - self@.pos,
        {
            self.advance();
        }
    }

    fn error(&self, msg: &str) -> (e: SyntaxError)
        ensures
            e@ == err_at(msg@, self@.line, self@.col),
    {
        SyntaxError::new(String::from_str(msg), Some(self.line), Some(self.col))
    }

    /// The characters `[from, to)` of the text, as a string.
    fn text_slice(&self, from: usize, to: usize) -> (s: String)
        requires
            from <= to <= self@.text.len(),
        ensures
            s@ == self@.text.subrange(from as int, to as int),
    {
        let mut v: Vec<char> = Vec::new();
        let mut i: usize = from;
        while i < to
            invariant
                from <= i <= to <= self@.text.len(),
                v@ == self@.text.subrange(from as int, i as int),
            decreases to - i,
        {
            v.push(self.text[i]);
            i = i + 1;
            proof {
                assert(v@ =~= self@.text.subrange(from as int, i as int));
            }
        }
        crate::chars::chars_to_string(&v)
    }

    fn read_comment(&mut self) -> (r: Result<(), SyntaxError>)
        requires
            old(self).wf(),
            old(self)@.pos < old(self)@.text.len(),
            old(self)@.text[old(self)@.pos] == '[',
        ensures
            final(self).wf(),
            final(self)@.text == old(self)@.text,
            final(self)@.line <= old(self)@.line + (final(self)@.pos - old(self)@.pos),
            match scan_to(
                old(self)@.text,
                old(self)@.pos + 1,
                ']',
                old(self)@.line,
                old(self)@.col + 1,
            ) {
                Ok((stop, l2, c2)) => r is Ok && final(self)@.pos == stop + 1 && final(self)@.line
                    == l2 && final(self)@.col == c2 + 1 && old(self)@.pos < final(self)@.pos
                    && final(self)@.toks == old(self)@.toks.push(
                    tok(
                        TokenType::Comment,
                        trim(old(self)@.text.subrange(old(self)@.pos + 1, stop)),
                        old(self)@.line,
                        old(self)@.col,
                    ),
                ),
                Err((l2, c2)) => r matches Err(e) && e@ == err_at("Unclosed comment"@, l2, c2),
            },
    {
        let line0 = self.line;
        let col0 = self.col;
        let ghost s = self@.text;
        self.advance();  // '['
        let start = self.pos;
        let ghost l1 = self@.line;
        let ghost c1 = self@.col;
        while self.pos < self.text.len() && self.text[self.pos] != ']'
            invariant
                self.wf(),
                self@.text == s,
                s == old(self)@.text,
                self@.toks == old(self)@.toks,
                line0 as int == old(self)@.line,
                col0 as int == old(self)@.col,
                start as int == old(self)@.pos + 1,
                l1 == old(self)@.line,
                c1 == old(self)@.col + 1,
                start <= self@.pos <= s.len(),
                scan_to(s, start as int, ']', l1, c1) == scan_to(
                    s,
                    self@.pos,
                    ']',
                    self@.line,
                    self@.col,
                ),
                self@.line <= old(self)@.line + (self@.pos - old(self)@.pos),
            decreases s.len() - self@.pos,
        {
            self.advance();
        }
        if self.pos >= self.text.len() {
            return Err(self.error("Unclosed comment"));
        }
        let stop = self.pos;
        // trim the comment body
        let mut lo = start;
        while lo < stop && crate::chars::trim_ws(self.text[lo])
            invariant
                self.wf(),
                self@.text == s,
                s == old(self)@.text,
                self@.toks == old(self)@.toks,
                line0 as int == old(self)@.line,
                col0 as int == old(self)@.col,
                start as int == old(self)@.pos + 1,
                stop as int == self@.pos,
                self@.pos < s.len(),
                s[stop as int] == ']',
                scan_to(s, old(self)@.pos + 1, ']', old(self)@.line, old(self)@.col + 1)
                    == Ok::<(int, int, int), (int, int)>((stop as int, self@.line, self@.col)),
                self@.line <= old(self)@.line + (self@.pos - old(self)@.pos),
                start <= lo <= stop <= s.len(),
                forall|j: int| start <= j < lo ==> is_trim_ws(s[j]),
            decreases stop - lo,
        {
            lo = lo + 1;
        }
        let mut hi = stop;
        while hi > lo && crate::chars::trim_ws(self.text[hi - 1])
            invariant
                self.wf(),
                self@.text == s,
                s == old(self)@.text,
                self@.toks == old(self)@.toks,
                line0 as int == old(self)@.line,
                col0 as int == old(self)@.col,
                start as int == old(self)@.pos + 1,
                stop as int == self@.pos,
                self@.pos < s.len(),
                s[stop as int] == ']',
                scan_to(s, old(self)@.pos + 1, ']', old(self)@.line, old(self)@.col + 1)
                    == Ok::<(int, int, int), (int, int)>((stop as int, self@.line, self@.col)),
                self@.line <= old(self)@.line + (self@.pos - old(self)@.pos),
                start <= lo <= stop,
                forall|j: int| start <= j < lo ==> is_trim_ws(s[j]),
                lo < stop ==> !is_trim_ws(s[lo as int]),
                lo == stop ==> lo == hi,
                lo <= hi <= stop,
                forall|j: int| hi <= j < stop ==> is_trim_ws(s[j]),
            decreases hi,
        {
            hi = hi - 1;
        }
        let content = self.text_slice(lo, hi);
        proof {
            let body = s.subrange(start as int, stop as int);
            assert forall|j: int| 0 <= j < lo - start implies is_trim_ws(body[j]) by {
                assert(body[j] == s[j + start]);
            }
            if lo < stop {
                assert(body[lo - start] == s[lo as int]);
            }
            lemma_trim_front_at(body, lo - start);
            let mid = body.skip(lo - start);
            assert forall|j: int| hi - lo <= j < mid.len() implies is_trim_ws(mid[j]) by {
                assert(mid[j] == s[j + lo]);
            }
            if hi > lo {
                assert(mid[hi - lo - 1] == s[hi - 1]);
            }
            lemma_trim_back_at(mid, hi - lo);
            assert(mid.take(hi - lo) =~= s.subrange(lo as int, hi as int));
            assert(trim(body) == s.subrange(lo as int, hi as int));
            assert(content@ == trim(body));
        }
        self.advance();  // ']'
        self.add(TokenType::Comment, Some(content), line0, col0);
        Ok(())
    }

    fn read_multiline_string(&mut self) -> (r: Result<(), SyntaxError>)
        requires
            old(self).wf(),
            old(self)@.pos < old(self)@.text.len(),
            old(self)@.text[old(self)@.pos] == '\'',
        ensures
            final(self).wf(),
            final(self)@.text == old(self)@.text,
            final(self)@.line <= old(self)@.line + (final(self)@.pos - old(self)@.pos),
            match scan_to(
                old(self)@.text,
                old(self)@.pos + 1,
                '\'',
                old(self)@.line,
                old(self)@.col + 1,
            ) {
                Ok((stop, l2, c2)) => r is Ok && final(self)@.pos == stop + 1 && final(self)@.line
                    == l2 && final(self)@.col == c2 + 1 && old(self)@.pos < final(self)@.pos
                    && final(self)@.toks == old(self)@.toks.push(
                    tok(
                        TokenType::MultilineString,
                        old(self)@.text.subrange(old(self)@.pos + 1, stop),
                        old(self)@.line,
                        old(self)@.col,
                    ),
                ),
                Err((l2, c2)) => r matches Err(e) && e@ == err_at(
                    "Unclosed multiline string"@,
                    l2,
                    c2,
                ),
            },
    {
        let line0 = self.line;
        let col0 = self.col;
        let ghost s = self@.text;
        self.advance();  // opening quote
        let start = self.pos;
        let ghost l1 = self@.line;
        let ghost c1 = self@.col;
        while self.pos < self.text.len() && self.text[self.pos] != '\''
            invariant
                self.wf(),
                self@.text == s,
                s == old(self)@.text,
                self@.toks == old(self)@.toks,
                line0 as int == old(self)@.line,
                col0 as int == old(self)@.col,
                start as int == old(self)@.pos + 1,
                l1 == old(self)@.line,
                c1 == old(self)@.col + 1,
                start <= self@.pos <= s.len(),
                scan_to(s, start as int, '\'', l1, c1) == scan_to(
                    s,
                    self@.pos,
                    '\'',
                    self@.line,
                    self@.col,
                ),
                self@.line <= old(self)@.line + (self@.pos - old(self)@.pos),
            decreases s.len() - self@.pos,
        {
            self.advance();
        }
        if self.pos >= self.text.len() {
            return Err(self.error("Unclosed multiline string"));
        }
        let stop = self.pos;
        let content = self.text_slice(start, stop);
        self.advance();  // closing quote
        self.add(TokenType::MultilineString, Some(content), line0, col0);
        Ok(())
    }

    fn read_string(&mut self) -> (r: Result<(), SyntaxError>)
        requires
            old(self).wf(),
            old(self)@.pos < old(self)@.text.len(),
            old(self)@.text[old(self)@.pos] == '"',
        ensures
            final(self).wf(),
            final(self)@.text == old(self)@.text,
            final(self)@.line <= old(self)@.line + (final(self)@.pos - old(self)@.pos),
            match scan_qstring(
                old(self)@.text,
                old(self)@.pos + 1,
                old(self)@.line,
                old(self)@.col + 1,
            ) {
                Ok((txt, e, l2, c2)) => r is Ok && final(self)@.pos == e && final(self)@.line == l2
                    && final(self)@.col == c2 && old(self)@.pos < e && final(self)@.toks == old(
                    self,
                )@.toks.push(tok(TokenType::String, txt, old(self)@.line, old(self)@.col)),
                Err(m) => r matches Err(e) && e@ == m,
            },
    {
        let line0 = self.line;
        let col0 = self.col;
        let ghost s = self@.text;
        self.advance();  // opening quote
        let ghost p1 = self@.pos;
        let ghost l1 = self@.line;
        let ghost c1 = self@.col;
        let mut out: Vec<char> = Vec::new();
        while self.pos < self.text.len() && self.text[self.pos] != '"'
            invariant
                self.wf(),
                self@.text == s,
                s == old(self)@.text,
                self@.toks == old(self)@.toks,
                line0 as int == old(self)@.line,
                col0 as int == old(self)@.col,
                p1 == old(self)@.pos + 1,
                l1 == old(self)@.line,
                c1 == old(self)@.col + 1,
                p1 <= self@.pos <= s.len(),
                scan_qstring(s, p1, l1, c1) == (match scan_qstring(
                    s,
                    self@.pos,
                    self@.line,
                    self@.col,
                ) {
                    Ok((t, e, l3, c3)) => Ok::<_, ErrModel>((out@ + t, e, l3, c3)),
                    Err(m) => Err(m),
                }),
                self@.line <= old(self)@.line + (self@.pos - old(self)@.pos),
            decreases s.len() - self@.pos,
        {
            let ghost pos_a = self@.pos;
            let ghost out_a = out@;
            let ch = self.advance().unwrap();
            if ch == '\\' {
                match self.peek(0) {
                    Some(c) => {
                        if c == 'n' {
                            self.advance();
                            out.push('\n');
                        } else if c == 't' {
                            self.advance();
                            out.push('\t');
                        } else if c == '"' {
                            self.advance();
                            out.push('"');
                        } else if c == '\\' {
                            self.advance();
                            out.push('\\');
                        } else {
                            out.push(c);
                            self.advance();
                        }
                        proof {
                            assert(out@ =~= out_a.push(esc_char(s[pos_a + 1])));
                            assert forall|t: Seq<char>|
                                out_a + (seq![esc_char(s[pos_a + 1])] + t) =~= out@ + t by {}
                        }
                    },
                    None => {
                        return Err(self.error("Unexpected end of string after backslash"));
                    },
                }
            } else {
                out.push(ch);
                proof {
                    assert(out@ =~= out_a.push(s[pos_a]));
                    assert forall|t: Seq<char>| out_a + (seq![s[pos_a]] + t) =~= out@ + t by {}
                }
            }
        }
        if self.pos >= self.text.len() {
            return Err(self.error("Unclosed string"));
        }
        self.advance();  // closing quote
        proof {
            assert(out@ + Seq::<char>::empty() =~= out@);
        }
        let value = crate::chars::chars_to_string(&out);
        self.add(TokenType::String, Some(value), line0, col0);
        Ok(())
    }

    fn read_number(&mut self) -> (r: Result<(), SyntaxError>)
        requires
            old(self).wf(),
            old(self)@.pos < old(self)@.text.len(),
            is_digit(old(self)@.text[old(self)@.pos]) || (old(self)@.text[old(self)@.pos] == '-'
                && old(self)@.pos + 1 < old(self)@.text.len() && is_digit(
                old(self)@.text[old(self)@.pos + 1],
            )),
        ensures
            final(self).wf(),
            final(self)@.text == old(self)@.text,
            final(self)@.line == old(self)@.line,
            r is Ok,
            ({
                let s = old(self)@.text;
                let p0 = old(self)@.pos;
                let bstart = if s[p0] == '-' {
                    p0 + 1
                } else {
                    p0
                };
                let end = scan_num_end(s, bstart, false);
                let text = s.subrange(p0, end);
                let kind = if text.contains('.') {
                    TokenType::Float
                } else {
                    TokenType::Number
                };
                &&& final(self)@.pos == end
                &&& p0 < end
                &&& final(self)@.col == old(self)@.col + (end - p0)
                &&& final(self)@.toks == old(self)@.toks.push(
                    tok(kind, text, old(self)@.line, old(self)@.col),
                )
            }),
    {
        let line0 = self.line;
        let col0 = self.col;
        let start = self.pos;
        let ghost s = self@.text;
        let ghost p0 = self@.pos;
        if self.text[self.pos] == '-' {
            self.advance();
        }
        let ghost bstart = self@.pos;
        let mut has_dot = false;
        while self.pos < self.text.len() && (crate::chars::digit(self.text[self.pos]) || (
        self.text[self.pos] == '.' && !has_dot))
            invariant
                self.wf(),
                self@.text == s,
                s == old(self)@.text,
                self@.toks == old(self)@.toks,
                self@.line == old(self)@.line,
                line0 as int == old(self)@.line,
                col0 as int == old(self)@.col,
                p0 == old(self)@.pos,
                start as int == p0,
                is_digit(s[bstart as int]),
                bstart <= self@.pos <= s.len(),
                p0 <= bstart <= p0 + 1,
                self@.col == old(self)@.col + (self@.pos - p0),
                scan_num_end(s, bstart, false) == scan_num_end(s, self@.pos, has_dot),
                has_dot == s.subrange(p0, self@.pos).contains('.'),
                p0 < bstart ==> s[p0] == '-',
                p0 == bstart ==> s[p0] != '-',
            decreases s.len() - self@.pos,
        {
            let c = self.text[self.pos];
            let ghost pos_a = self@.pos;
            if c == '.' {
                has_dot = true;
            }
            self.advance();
            proof {
                let a = s.subrange(p0, pos_a);
                let b = s.subrange(p0, self@.pos);
                assert(b =~= a.push(c));
                if b.contains('.') {
                    let i = choose|i: int| 0 <= i < b.len() && b[i] == '.';
                    if i < a.len() {
                        assert(a[i] == '.');
                        assert(a.contains('.'));
                    } else {
                        assert(c == '.');
                    }
                }
                if a.contains('.') {
                    let i = choose|i: int| 0 <= i < a.len() && a[i] == '.';
                    assert(b[i] == '.');
                    assert(b.contains('.'));
                }
                if c == '.' {
                    assert(b[b.len() - 1] == '.');
                    assert(b.contains('.'));
                }
            }
        }
        let end = self.pos;
        proof {
            if end == bstart {
                assert(is_digit(s[bstart as int]));
                assert(false);
            }
        }
        let value = self.text_slice(start, end);
        let kind = if has_dot {
            TokenType::Float
        } else {
            TokenType::Number
        };
        self.add(kind, Some(value), line0, col0);
        Ok(())
    }

    fn read_identifier_or_number(&mut self) -> (r: Result<(), SyntaxError>)
        requires
            old(self).wf(),
            old(self)@.pos < old(self)@.text.len(),
            is_digit(old(self)@.text[old(self)@.pos]),
        ensures
            final(self).wf(),
            final(self)@.text == old(self)@.text,
            final(self)@.line == old(self)@.line,
            r is Ok,
            ({
                let s = old(self)@.text;
                let p0 = old(self)@.pos;
                let de = scan_digits(s, p0);
                if de < s.len() && (is_alpha(s[de]) || s[de] == '_') {
                    let end = scan_ident_end(s, de);
                    &&& final(self)@.pos == end
                    &&& p0 < end
                    &&& final(self)@.col == old(self)@.col + (end - p0)
                    &&& final(self)@.toks == old(self)@.toks.push(
                        tok(
                            TokenType::Identifier,
                            s.subrange(p0, end),
                            old(self)@.line,
                            old(self)@.col,
                        ),
                    )
                } else {
                    let end = scan_num_end(s, p0, false);
                    let text = s.subrange(p0, end);
                    let kind = if text.contains('.') {
                        TokenType::Float
                    } else {
                        TokenType::Number
                    };
                    &&& final(self)@.pos == end
                    &&& p0 < end
                    &&& final(self)@.col == old(self)@.col + (de - p0) + (end - p0)
                    &&& final(self)@.toks == old(self)@.toks.push(
                        tok(kind, text, old(self)@.line, old(self)@.col + (de - p0)),
                    )
                }
            }),
    {
        let line0 = self.line;
        let col0 = self.col;
        let start = self.pos;
        let ghost s = self@.text;
        let ghost p0 = self@.pos;
        while self.pos < self.text.len() && crate::chars::digit(self.text[self.pos])
            invariant
                self.wf(),
                self@.text == s,
                s == old(self)@.text,
                self@.toks == old(self)@.toks,
                self@.line == old(self)@.line,
                line0 as int == old(self)@.line,
                col0 as int == old(self)@.col,
                p0 == old(self)@.pos,
                start as int == p0,
                is_digit(s[p0]),
                p0 <= self@.pos <= s.len(),
                self@.col == old(self)@.col + (self@.pos - p0),
                scan_digits(s, p0) == scan_digits(s, self@.pos),
                scan_num_end(s, p0, false) == scan_num_end(s, self@.pos, false),
                forall|j: int| p0 <= j < self@.pos ==> is_digit(s[j]),
            decreases s.len() - self@.pos,
        {
            self.advance();
        }
        let de = self.pos;
        let is_ident = de < self.text.len() && {
            let c = self.text[de];
            crate::chars::alpha(c) || c == '_'
        };
        if is_ident {
            while self.pos < self.text.len() && crate::chars::ident_char(self.text[self.pos])
                invariant
                    self.wf(),
                    self@.text == s,
                    s == old(self)@.text,
                    self@.toks == old(self)@.toks,
                    self@.line == old(self)@.line,
                    line0 as int == old(self)@.line,
                    col0 as int == old(self)@.col,
                    p0 == old(self)@.pos,
                    start as int == p0,
                    de as int == scan_digits(s, p0),
                    de < s.len() && (is_alpha(s[de as int]) || s[de as int] == '_'),
                    de <= self@.pos <= s.len(),
                    p0 <= de,
                    self@.col == old(self)@.col + (self@.pos - p0),
                    scan_ident_end(s, de as int) == scan_ident_end(s, self@.pos),
                decreases s.len() - self@.pos,
            {
                self.advance();
            }
            let end = self.pos;
            let value = self.text_slice(start, end);
            self.add(TokenType::Identifier, Some(value), line0, col0);
            proof {
                if end == p0 {
                    assert(false);
                }
            }
            Ok(())
        } else {
            // a plain number: record the column with the digit run counted
            // again, as the second scan of the digits counts it
            let tok_col = self.col;
            let ghost dcount = de - p0;
            let mut has_dot = false;
            while self.pos < self.text.len() && (crate::chars::digit(self.text[self.pos]) || (
            self.text[self.pos] == '.' && !has_dot))
                invariant
                    self.wf(),
                    self@.text == s,
                    s == old(self)@.text,
                    self@.toks == old(self)@.toks,
                    self@.line == old(self)@.line,
                    line0 as int == old(self)@.line,
                    col0 as int == old(self)@.col,
                    p0 == old(self)@.pos,
                    start as int == p0,
                    is_digit(s[p0]),
                    de as int == scan_digits(s, p0),
                    !(de < s.len() && (is_alpha(s[de as int]) || s[de as int] == '_')),
                    tok_col as int == old(self)@.col + (de - p0),
                    p0 <= de <= self@.pos <= s.len(),
                    dcount == de - p0,
                    self@.col == old(self)@.col + (self@.pos - p0),
                    scan_num_end(s, p0, false) == scan_num_end(s, self@.pos, has_dot),
                    has_dot == s.subrange(p0, self@.pos).contains('.'),
                decreases s.len() - self@.pos,
            {
                let c = self.text[self.pos];
                let ghost pos_a = self@.pos;
                if c == '.' {
                    has_dot = true;
                }
                self.advance();
                proof {
                    let a = s.subrange(p0, pos_a);
                    let b = s.subrange(p0, self@.pos);
                    assert(b =~= a.push(c));
                    if b.contains('.') {
                        let i = choose|i: int| 0 <= i < b.len() && b[i] == '.';
                        if i < a.len() {
                            assert(a[i] == '.');
                            assert(a.contains('.'));
                        } else {
                            assert(c == '.');
                        }
                    }
                    if a.contains('.') {
                        let i = choose|i: int| 0 <= i < a.len() && a[i] == '.';
                        assert(b[i] == '.');
                        assert(b.contains('.'));
                    }
                    if c == '.' {
                        assert(b[b.len() - 1] == '.');
                        assert(b.contains('.'));
                    }
                }
            }
            let end = self.pos;
            proof {
                if end == p0 {
                    assert(is_digit(s[p0]));
                    assert(false);
                }
                // headroom for widening the column: it stays within twice the
                // position
                assert(old(self)@.col <= 2 * p0 + 2);
                assert(self@.col + dcount <= 2 * end + 2);
            }
            let dc = de - start;
            self.col = self.col + dc;
            let value = self.text_slice(start, end);
            let kind = if has_dot {
                TokenType::Float
            } else {
                TokenType::Number
            };
            self.add(kind, Some(value), line0, tok_col);
            Ok(())
        }
    }

    fn read_identifier(&mut self) -> (r: Result<(), SyntaxError>)
        requires
            old(self).wf(),
            old(self)@.pos < old(self)@.text.len(),
            is_alpha(old(self)@.text[old(self)@.pos]) || old(self)@.text[old(self)@.pos] == '_',
        ensures
            final(self).wf(),
            final(self)@.text == old(self)@.text,
            final(self)@.line == old(self)@.line,
            r is Ok,
            ({
                let s = old(self)@.text;
                let p0 = old(self)@.pos;
                let end = scan_ident_end(s, p0);
                let text = s.subrange(p0, end);
                let kind = kw_kind(text);
                let shown = if kind == TokenType::Boolean {
                    bool_text(text)
                } else {
                    text
                };
                &&& final(self)@.pos == end
                &&& p0 < end
                &&& final(self)@.col == old(self)@.col + (end - p0)
                &&& final(self)@.toks == old(self)@.toks.push(
                    tok(kind, shown, old(self)@.line, old(self)@.col),
                )
            }),
    {
        let line0 = self.line;
        let col0 = self.col;
        let start = self.pos;
        let ghost s = self@.text;
        let ghost p0 = self@.pos;
        while self.pos < self.text.len() && crate::chars::ident_char(self.text[self.pos])
            invariant
                self.wf(),
                self@.text == s,
                s == old(self)@.text,
                self@.toks == old(self)@.toks,
                self@.line == old(self)@.line,
                line0 as int == old(self)@.line,
                col0 as int == old(self)@.col,
                p0 == old(self)@.pos,
                start as int == p0,
                is_ident_char(s[p0]),
                p0 <= self@.pos <= s.len(),
                self@.col == old(self)@.col + (self@.pos - p0),
                scan_ident_end(s, p0) == scan_ident_end(s, self@.pos),
            decreases s.len() - self@.pos,
        {
            self.advance();
        }
        let end = self.pos;
        proof {
            if end == p0 {
                assert(is_ident_char(s[p0]));
                assert(false);
            }
        }
        let word = self.text_slice(start, end);
        let t = if crate::chars::str_eq(word.as_str(), "bool") {
            TokenType::BoolKw
        } else if crate::chars::str_eq(word.as_str(), "str") {
            TokenType::StrKw
        } else if crate::chars::str_eq(word.as_str(), "num") {
            TokenType::NumKw
        } else if crate::chars::str_eq(word.as_str(), "fl") {
            TokenType::FlKw
        } else if crate::chars::str_eq(word.as_str(), "ml") {
            TokenType::MlKw
        } else if crate::chars::str_eq(word.as_str(), "class") {
            TokenType::ClassKw
        } else if crate::chars::str_eq(word.as_str(), "list") {
            TokenType::ListKw
        } else if crate::chars::str_eq(word.as_str(), "dynamic") {
            TokenType::DynamicKw
        } else if crate::chars::str_eq(word.as_str(), "true") || crate::chars::str_eq(
            word.as_str(),
            "false",
        ) || crate::chars::str_eq(word.as_str(), "yes") || crate::chars::str_eq(
            word.as_str(),
            "no",
        ) {
            TokenType::Boolean
        } else {
            TokenType::Identifier
        };
        if t == TokenType::Boolean {
            let val = if crate::chars::str_eq(word.as_str(), "true") || crate::chars::str_eq(
                word.as_str(),
                "yes",
            ) {
                String::from_str("true")
            } else {
                String::from_str("false")
            };
            self.add(TokenType::Boolean, Some(val), line0, col0);
        } else {
            self.add(t, Some(word), line0, col0);
        }
        Ok(())
    }

    /// Lexes the whole text: the tokens already produced, followed by what
    /// `lex_from` yields for the rest of the text; or the first lexical
    /// error.
    pub fn tokenize(self) -> (r: Result<Vec<Token>, SyntaxError>)
        requires
            self.wf(),
        ensures
            match lex_from(self@.text, self@.pos, self@.line, self@.col) {
                Ok(ts) => r matches Ok(v) && toks_model(v@) == self@.toks + ts,
                Err(m) => r matches Err(e) && e@ == m,
            },
    {
        let ghost s = self@.text;
        let ghost g = self@;
        let mut me = self;
        proof {
            assert(lex_inv(s, g, g.pos, g.line, g.col, g.toks));
        }
        while me.pos < me.text.len()
            invariant
                me.wf(),
                me@.text == s,
                s == g.text,
                g == self@,
                lex_inv(s, g, me@.pos, me@.line, me@.col, me@.toks),
            decreases s.len() - me@.pos,
        {
            let ghost pos0 = me@.pos;
            let ghost line0 = me@.line;
            let ghost col0 = me@.col;
            let ghost toks0 = me@.toks;
            me.skip_ws();
            proof {
                lemma_skip_blanks_props(s, pos0);
                assert(lex_from(s, pos0, line0, col0) == lex_from(
                    s,
                    me@.pos,
                    me@.line,
                    me@.col,
                ));
            }
            if me.pos >= me.text.len() {
                continue ;
            }
            let ghost pos1 = me@.pos;
            let ghost line1 = me@.line;
            let ghost col1 = me@.col;
            let c = me.text[me.pos];
            if c == '[' {
                match me.read_comment() {
                    Ok(_) => {
                        proof {
                            match scan_to(s, pos1 + 1, ']', line1, col1 + 1) {
                                Ok((stop, l2, c2)) => {
                                    let t = tok(
                                        TokenType::Comment,
                                        trim(s.subrange(pos1 + 1, stop)),
                                        line1,
                                        col1,
                                    );
                                    lemma_lex_step(
                                        s,
                                        g,
                                        pos0,
                                        line0,
                                        col0,
                                        toks0,
                                        t,
                                        me@.pos,
                                        me@.line,
                                        me@.col,
                                    );
                                },
                                Err(_) => {
                                    assert(false);
                                },
                            }
                        }
                    },
                    Err(e) => {
                        proof {
                            assert(lex_from(s, pos1, line1, col1) matches Err(m) && e@ == m);
                            assert(lex_from(s, pos0, line0, col0) == lex_from(s, pos1, line1, col1));
                            assert(lex_inv(s, g, pos0, line0, col0, toks0));
                            assert(lex_from(s, g.pos, g.line, g.col) matches Err(m) && e@ == m);
                            assert(g == self@);
                        }
                        return Err(e);
                    },
                }
            } else if c == '\n' {
                let l = me.line;
                let co = me.col;
                me.add(TokenType::Newline, Some(String::from_str("\n")), l, co);
                me.advance();
                proof {
                    let t = tok(TokenType::Newline, "\n"@, line1, col1);
                    lemma_lex_step(
                        s,
                        g,
                        pos0,
                        line0,
                        col0,
                        toks0,
                        t,
                        me@.pos,
                        me@.line,
                        me@.col,
                    );
                }
            } else if c == ':' && me.pos + 1 < me.text.len() && me.text[me.pos + 1]
                == ':' {
                let l = me.line;
                let co = me.col;
                me.advance();
                me.advance();
                me.add(TokenType::DoubleColon, Some(String::from_str("::")), l, co);
                proof {
                    let t = tok(TokenType::DoubleColon, "::"@, line1, col1);
                    lemma_lex_step(
                        s,
                        g,
                        pos0,
                        line0,
                        col0,
                        toks0,
                        t,
                        me@.pos,
                        me@.line,
                        me@.col,
                    );
                }
            } else if c == '{' || c == '}' || c == '(' || c == ')' || c == ',' {
                let l = me.line;
                let co = me.col;
                let kind = if c == '{' {
                    TokenType::LBrace
                } else if c == '}' {
                    TokenType::RBrace
                } else if c == '(' {
                    TokenType::LParen
                } else if c == ')' {
                    TokenType::RParen
                } else {
                    TokenType::Comma
                };
                let value = if c == '{' {
                    String::from_str("{")
                } else if c == '}' {
                    String::from_str("}")
                } else if c == '(' {
                    String::from_str("(")
                } else if c == ')' {
                    String::from_str(")")
                } else {
                    String::from_str(",")
                };
                me.advance();
                me.add(kind, Some(value), l, co);
                proof {
                    let text = if c == '{' {
                        "{"@
                    } else if c == '}' {
                        "}"@
                    } else if c == '(' {
                        "("@
                    } else if c == ')' {
                        ")"@
                    } else {
                        ","@
                    };
                    let t = tok(kind, text, line1, col1);
                    lemma_lex_step(
                        s,
                        g,
                        pos0,
                        line0,
                        col0,
                        toks0,
                        t,
                        me@.pos,
                        me@.line,
                        me@.col,
                    );
                }
            } else if c == '"' {
                match me.read_string() {
                    Ok(_) => {
                        proof {
                            match scan_qstring(s, pos1 + 1, line1, col1 + 1) {
                                Ok((txt, e, l2, c2)) => {
                                    let t = tok(TokenType::String, txt, line1, col1);
                                    lemma_lex_step(
                                        s,
                                        g,
                                        pos0,
                                        line0,
                                        col0,
                                        toks0,
                                        t,
                                        me@.pos,
                                        me@.line,
                                        me@.col,
                                    );
                                },
                                Err(_) => {
                                    assert(false);
                                },
                            }
                        }
                    },
                    Err(e) => {
                        proof {
                            assert(lex_from(s, pos1, line1, col1) matches Err(m) && e@ == m);
                            assert(lex_from(s, pos0, line0, col0) == lex_from(s, pos1, line1, col1));
                            assert(lex_inv(s, g, pos0, line0, col0, toks0));
                            assert(lex_from(s, g.pos, g.line, g.col) matches Err(m) && e@ == m);
                            assert(g == self@);
                        }
                        return Err(e);
                    },
                }
            } else if c == '\'' {
                match me.read_multiline_string() {
                    Ok(_) => {
                        proof {
                            match scan_to(s, pos1 + 1, '\'', line1, col1 + 1) {
                                Ok((stop, l2, c2)) => {
                                    let t = tok(
                                        TokenType::MultilineString,
                                        s.subrange(pos1 + 1, stop),
                                        line1,
                                        col1,
                                    );
                                    lemma_lex_step(
                                        s,
                                        g,
                                        pos0,
                                        line0,
                                        col0,
                                        toks0,
                                        t,
                                        me@.pos,
                                        me@.line,
                                        me@.col,
                                    );
                                },
                                Err(_) => {
                                    assert(false);
                                },
                            }
                        }
                    },
                    Err(e) => {
                        proof {
                            assert(lex_from(s, pos1, line1, col1) matches Err(m) && e@ == m);
                            assert(lex_from(s, pos0, line0, col0) == lex_from(s, pos1, line1, col1));
                            assert(lex_inv(s, g, pos0, line0, col0, toks0));
                            assert(lex_from(s, g.pos, g.line, g.col) matches Err(m) && e@ == m);
                            assert(g == self@);
                        }
                        return Err(e);
                    },
                }
            } else if c == '-' && me.pos + 1 < me.text.len() && crate::chars::digit(
                me.text[me.pos + 1],
            ) {
                match me.read_number() {
                    Ok(_) => {
                        proof {
                            let end = scan_num_end(s, pos1 + 1, false);
                            let text = s.subrange(pos1, end);
                            let kind = if text.contains('.') {
                                TokenType::Float
                            } else {
                                TokenType::Number
                            };
                            let t = tok(kind, text, line1, col1);
                            lemma_lex_step(
                                s,
                                g,
                                pos0,
                                line0,
                                col0,
                                toks0,
                                t,
                                me@.pos,
                                me@.line,
                                me@.col,
                            );
                        }
                    },
                    Err(e) => {
                        proof {
                            assert(lex_from(s, pos1, line1, col1) matches Err(m) && e@ == m);
                            assert(lex_from(s, pos0, line0, col0) == lex_from(s, pos1, line1, col1));
                            assert(lex_inv(s, g, pos0, line0, col0, toks0));
                            assert(lex_from(s, g.pos, g.line, g.col) matches Err(m) && e@ == m);
                            assert(g == self@);
                        }
                        return Err(e);
                    },
                }
            } else if crate::chars::digit(c) {
                match me.read_identifier_or_number() {
                    Ok(_) => {
                        proof {
                            let de = scan_digits(s, pos1);
                            if de < s.len() && (is_alpha(s[de]) || s[de] == '_') {
                                let end = scan_ident_end(s, de);
                                let t = tok(
                                    TokenType::Identifier,
                                    s.subrange(pos1, end),
                                    line1,
                                    col1,
                                );
                                lemma_lex_step(
                                    s,
                                    g,
                                    pos0,
                                    line0,
                                    col0,
                                    toks0,
                                    t,
                                    me@.pos,
                                    me@.line,
                                    me@.col,
                                );
                            } else {
                                let end = scan_num_end(s, pos1, false);
                                let text = s.subrange(pos1, end);
                                let kind = if text.contains('.') {
                                    TokenType::Float
                                } else {
                                    TokenType::Number
                                };
                                let t = tok(kind, text, line1, col1 + (de - pos1));
                                lemma_lex_step(
                                    s,
                                    g,
                                    pos0,
                                    line0,
                                    col0,
                                    toks0,
                                    t,
                                    me@.pos,
                                    me@.line,
                                    me@.col,
                                );
                            }
                        }
                    },
                    Err(e) => {
                        proof {
                            assert(lex_from(s, pos1, line1, col1) matches Err(m) && e@ == m);
                            assert(lex_from(s, pos0, line0, col0) == lex_from(s, pos1, line1, col1));
                            assert(lex_inv(s, g, pos0, line0, col0, toks0));
                            assert(lex_from(s, g.pos, g.line, g.col) matches Err(m) && e@ == m);
                            assert(g == self@);
                        }
                        return Err(e);
                    },
                }
            } else if crate::chars::alpha(c) || c == '_' {
                match me.read_identifier() {
                    Ok(_) => {
                        proof {
                            let end = scan_ident_end(s, pos1);
                            let text = s.subrange(pos1, end);
                            let kind = kw_kind(text);
                            let shown = if kind == TokenType::Boolean {
                                bool_text(text)
                            } else {
                                text
                            };
                            let t = tok(kind, shown, line1, col1);
                            lemma_lex_step(
                                s,
                                g,
                                pos0,
                                line0,
                                col0,
                                toks0,
                                t,
                                me@.pos,
                                me@.line,
                                me@.col,
                            );
                        }
                    },
                    Err(e) => {
                        proof {
                            assert(lex_from(s, pos1, line1, col1) matches Err(m) && e@ == m);
                            assert(lex_from(s, pos0, line0, col0) == lex_from(s, pos1, line1, col1));
                            assert(lex_inv(s, g, pos0, line0, col0, toks0));
                            assert(lex_from(s, g.pos, g.line, g.col) matches Err(m) && e@ == m);
                            assert(g == self@);
                        }
                        return Err(e);
                    },
                }
            } else {
                proof {
                    assert(lex_from(s, pos1, line1, col1) == Err::<Seq<TokModel>, ErrModel>(
                        err_at("Unexpected character"@, line1, col1),
                    ));
                    assert(lex_from(s, pos0, line0, col0) == lex_from(s, pos1, line1, col1));
                    assert(lex_inv(s, g, pos0, line0, col0, toks0));
                    assert(lex_from(s, g.pos, g.line, g.col) == Err::<Seq<TokModel>, ErrModel>(
                        err_at("Unexpected character"@, line1, col1),
                    ));
                    assert(g == self@);
                }
                return Err(me.error("Unexpected character"));
            }
        }
        let l = me.line;
        let co = me.col;
        let ghost eof_tok = TokModel {
            kind: TokenType::Eof,
            text: None,
            line: me@.line,
            col: me@.col,
        };
        proof {
            lemma_skip_blanks_props(s, me@.pos);
            assert(skip_blanks(s, me@.pos) == me@.pos);
            assert(lex_from(s, me@.pos, me@.line, me@.col) == Ok::<Seq<TokModel>, ErrModel>(
                seq![eof_tok],
            ));
        }
        me.add(TokenType::Eof, None, l, co);
        proof {
            match lex_from(s, g.pos, g.line, g.col) {
                Ok(all) => {
                    assert(g.toks + all == me@.toks.drop_last() + seq![eof_tok]);
                    assert(me@.toks.drop_last() + seq![eof_tok] =~= me@.toks);
                },
                Err(_) => {
                    assert(false);
                },
            }
        }
        Ok(me.tokens)
    }
}

/// The running relation of `tokenize`: what lexing from the current cursor
/// yields, appended to the tokens already produced, is what lexing from the
/// starting state `g` yields.
pub open spec fn lex_inv(
    s: Seq<char>,
    g: LexModel,
    pos: int,
    line: int,
    col: int,
    toks: Seq<TokModel>,
) -> bool {
    match lex_from(s, pos, line, col) {
        Ok(rest) => match lex_from(s, g.pos, g.line, g.col) {
            Ok(all) => g.toks + all == toks + rest,
            Err(_) => false,
        },
        Err(m) => lex_from(s, g.pos, g.line, g.col) == Err::<Seq<TokModel>, ErrModel>(m),
    }
}

proof fn lemma_skip_blanks_props(s: Seq<char>, pos: int)
    ensures
        pos <= skip_blanks(s, pos),
        pos <= s.len() ==> skip_blanks(s, pos) <= s.len(),
        0 <= skip_blanks(s, pos) < s.len() ==> !is_blank(s[skip_blanks(s, pos)]),
        skip_blanks(s, skip_blanks(s, pos)) == skip_blanks(s, pos),
    decreases s.len() - pos,
{
    if 0 <= pos < s.len() && is_blank(s[pos]) {
        lemma_skip_blanks_props(s, pos + 1);
    }
}

proof fn lemma_lex_step(
    s: Seq<char>,
    g: LexModel,
    pos0: int,
    line0: int,
    col0: int,
    toks0: Seq<TokModel>,
    t: TokModel,
    pos2: int,
    line2: int,
    col2: int,
)
    requires
        lex_inv(s, g, pos0, line0, col0, toks0),
        match lex_from(s, pos2, line2, col2) {
            Ok(r2) => lex_from(s, pos0, line0, col0) == Ok::<Seq<TokModel>, ErrModel>(
                seq![t] + r2,
            ),
            Err(m) => lex_from(s, pos0, line0, col0) == Err::<Seq<TokModel>, ErrModel>(m),
        },
    ensures
        lex_inv(s, g, pos2, line2, col2, toks0.push(t)),
{
    match lex_from(s, pos2, line2, col2) {
        Ok(r2) => {
            match lex_from(s, g.pos, g.line, g.col) {
                Ok(all) => {
                    assert(g.toks + all == toks0 + (seq![t] + r2));
                    assert(toks0 + (seq![t] + r2) =~= toks0.push(t) + r2);
                },
                Err(_) => {
                    assert(false);
                },
            }
        },
        Err(_) => {},
    }
}

proof fn lemma_trim_front_at(s: Seq<char>, k: int)
    requires
        0 <= k <= s.len(),
        forall|j: int| 0 <= j < k ==> is_trim_ws(s[j]),
        k == s.len() || !is_trim_ws(s[k]),
    ensures
        trim_front(s) == s.skip(k),
    decreases k,
{
    if k == 0 {
        assert(s.skip(0) =~= s);
    } else {
        assert(is_trim_ws(s[0]));
        let t = s.skip(1);
        assert forall|j: int| 0 <= j < k - 1 implies is_trim_ws(t[j]) by {
            assert(t[j] == s[j + 1]);
        }
        if k < s.len() {
            assert(t[k - 1] == s[k]);
        }
        lemma_trim_front_at(t, k - 1);
        assert(t.skip(k - 1) =~= s.skip(k));
    }
}

proof fn lemma_trim_back_at(s: Seq<char>, k: int)
    requires
        0 <= k <= s.len(),
        forall|j: int| k <= j < s.len() ==> is_trim_ws(s[j]),
        k == 0 || !is_trim_ws(s[k - 1]),
    ensures
        trim_back(s) == s.take(k),
    decreases s.len(),
{
    if s.len() > k {
        assert(is_trim_ws(s.last()));
        let t = s.drop_last();
        assert forall|j: int| k <= j < t.len() implies is_trim_ws(t[j]) by {
            assert(t[j] == s[j]);
        }
        if k > 0 {
            assert(t[k - 1] == s[k - 1]);
        }
        lemma_trim_back_at(t, k);
        assert(t.take(k) =~= s.take(k));
    } else {
        if s.len() > 0 {
            assert(!is_trim_ws(s[k - 1]));
        }
        assert(s.take(k) =~= s);
    }
}

} // verus!
