//! The scanner: one forward pass over the source text.

use vstd::prelude::*;
use vstd::string::{StrSliceExecFns, StringExecFns};

use crate::error::{diags_view, lemma_diags_view_push, LoxError};
use crate::model::{
    comment_end, digits_end, ident_end, is_alnum, is_alpha, is_digit, keyword_of,
    lemma_step_bounds, newlines, opt_seq, scan_from, scan_step, string_body_end, DiagView,
    SpecToken,
};
use crate::token::{lemma_tokens_view_push, opt_lit_view, tokens_view, Literal, Token};
use crate::token_type::TokenType;

verus! {

/// Exact, case-sensitive lookup of a whole lexeme in the fixed keyword table.
fn match_keyword(lexeme: &String) -> (r: Option<TokenType>)
    ensures
        r == keyword_of(lexeme@),
{
    if *lexeme == String::from_str("and") {
        Some(TokenType::And)
    } else if *lexeme == String::from_str("class") {
        Some(TokenType::Class)
    } else if *lexeme == String::from_str("else") {
        Some(TokenType::Else)
    } else if *lexeme == String::from_str("false") {
        Some(TokenType::False)
    } else if *lexeme == String::from_str("for") {
        Some(TokenType::For)
    } else if *lexeme == String::from_str("fun") {
        Some(TokenType::Fun)
    } else if *lexeme == String::from_str("if") {
        Some(TokenType::If)
    } else if *lexeme == String::from_str("nil") {
        Some(TokenType::Nil)
    } else if *lexeme == String::from_str("or") {
        Some(TokenType::Or)
    } else if *lexeme == String::from_str("print") {
        Some(TokenType::Print)
    } else if *lexeme == String::from_str("return") {
        Some(TokenType::Return)
    } else if *lexeme == String::from_str("super") {
        Some(TokenType::Super)
    } else if *lexeme == String::from_str("this") {
        Some(TokenType::This)
    } else if *lexeme == String::from_str("true") {
        Some(TokenType::True)
    } else if *lexeme == String::from_str("var") {
        Some(TokenType::Var)
    } else if *lexeme == String::from_str("while") {
        Some(TokenType::While)
    } else {
        None
    }
}

/// The scanner: owns the source text as a sequence of Unicode scalar
/// values, a forward-only cursor, the tokens emitted so far, and the
/// diagnostics produced so far.
pub struct Scanner {
    text: String,
    source: Vec<char>,
    tokens: Vec<Token>,
    start: usize,
    current: usize,
    line: usize,
    diagnostics: Vec<LoxError>,
}

impl Scanner {
    /// The source text as a sequence of Unicode scalar values.
    pub closed spec fn src(&self) -> Seq<char> {
        self.source@
    }

    /// The views of the tokens emitted so far.
    pub closed spec fn toks(&self) -> Seq<SpecToken> {
        tokens_view(self.tokens@)
    }

    /// The views of the diagnostics produced so far.
    pub closed spec fn digs(&self) -> Seq<DiagView> {
        diags_view(self.diagnostics@)
    }

    /// The cursor: the offset of the next unread character.
    pub closed spec fn pos(&self) -> int {
        self.current as int
    }

    /// The current 1-based line counter.
    pub closed spec fn cur_line(&self) -> nat {
        self.line as nat
    }

    /// Well-formedness: the cursor lies within the source, the line counter
    /// is 1-based and bounded by the characters read, and the decoded
    /// character buffer agrees with the owned text.
    pub closed spec fn wf(&self) -> bool {
        &&& self.text@ == self.source@
        &&& self.current <= self.source@.len()
        &&& self.start <= self.current
        &&& 1 <= self.line
        &&& self.line <= self.current + 1
        &&& self.source@.len() < usize::MAX
    }

    /// Builds a scanner over a complete source text, decomposed into
    /// Unicode scalar values, with the cursor at the start and the line
    /// counter at 1.
    #[verifier::loop_isolation(false)]
    pub fn new(source: String) -> (s: Self)
        requires
            source@.len() < usize::MAX,
        ensures
            s.wf(),
            s.src() == source@,
            s.toks() == Seq::<SpecToken>::empty(),
            s.digs() == Seq::<DiagView>::empty(),
            s.pos() == 0,
            s.cur_line() == 1,
    {
        let n = source.as_str().unicode_len();
        let mut chars: Vec<char> = Vec::new();
        let mut i: usize = 0;
        while i < n
            invariant
                n == source@.len(),
                i <= n,
                chars@ =~= source@.subrange(0, i as int),
            decreases n - i,
        {
            let c = source.as_str().get_char(i);
            chars.push(c);
            i = i + 1;
        }
        proof {
            assert(chars@ =~= source@);
            assert(tokens_view(Seq::<Token>::empty()) =~= Seq::<SpecToken>::empty());
            assert(diags_view(Seq::<LoxError>::empty()) =~= Seq::<DiagView>::empty());
        }
        Scanner {
            text: source,
            source: chars,
            tokens: Vec::new(),
            start: 0,
            current: 0,
            line: 1,
            diagnostics: Vec::new(),
        }
    }

    /// The tokens emitted so far.
    pub fn tokens(&self) -> (r: &Vec<Token>)
        ensures
            tokens_view(r@) == self.toks(),
    {
        &self.tokens
    }

    /// The diagnostics produced so far, in source order.
    pub fn diagnostics(&self) -> (r: &Vec<LoxError>)
        ensures
            diags_view(r@) == self.digs(),
    {
        &self.diagnostics
    }

    fn is_at_end(&self) -> (r: bool)
        ensures
            r == (self.pos() >= self.src().len()),
    {
        self.current >= self.source.len()
    }

    /// Consumes and returns the next unread character.
    fn advance(&mut self) -> (c: char)
        requires
            old(self).current < old(self).source@.len(),
            old(self).source@.len() < usize::MAX,
        ensures
            c == old(self).source@[old(self).current as int],
            final(self).current == old(self).current + 1,
            final(self).text == old(self).text,
            final(self).source == old(self).source,
            final(self).tokens == old(self).tokens,
            final(self).start == old(self).start,
            final(self).line == old(self).line,
            final(self).diagnostics == old(self).diagnostics,
    {
        let result = self.source[self.current];
        self.current = self.current + 1;
        result
    }

    /// The next unread character, if any, without consuming it.
    fn peek(&self) -> (r: Option<char>)
        ensures
            r == (if self.current < self.source@.len() {
                Some(self.source@[self.current as int])
            } else {
                None::<char>
            }),
    {
        if self.current < self.source.len() {
            Some(self.source[self.current])
        } else {
            None
        }
    }

    /// The character after the next unread one, if any, without consuming.
    fn peek_next(&self) -> (r: Option<char>)
        requires
            self.current < usize::MAX,
        ensures
            r == (if self.current + 1 < self.source@.len() {
                Some(self.source@[self.current as int + 1])
            } else {
                None::<char>
            }),
    {
        if self.current + 1 < self.source.len() {
            Some(self.source[self.current + 1])
        } else {
            None
        }
    }

    /// Consumes the next unread character exactly when it equals `expected`.
    fn is_match(&mut self, expected: char) -> (r: bool)
        requires
            old(self).source@.len() < usize::MAX,
        ensures
            r == (old(self).current < old(self).source@.len() && old(self).source@[old(
                self,
            ).current as int] == expected),
            r ==> final(self).current == old(self).current + 1,
            !r ==> final(self).current == old(self).current,
            final(self).text == old(self).text,
            final(self).source == old(self).source,
            final(self).tokens == old(self).tokens,
            final(self).start == old(self).start,
            final(self).line == old(self).line,
            final(self).diagnostics == old(self).diagnostics,
    {
        if self.current < self.source.len() {
            if self.source[self.current] == expected {
                self.current = self.current + 1;
                return true;
            }
        }
        false
    }

    /// Whether an optional character is an ASCII digit.
    fn is_digit(c: Option<char>) -> (r: bool)
        ensures
            r == (match c {
                Some(c0) => is_digit(c0),
                None => false,
            }),
    {
        match c {
            Some(c0) => {
                let u = c0 as u32;
                48 <= u && u <= 57
            },
            None => false,
        }
    }

    /// Whether an optional character may continue an identifier.
    fn is_alpha_numeric(c: Option<char>) -> (r: bool)
        ensures
            r == (match c {
                Some(c0) => is_alnum(c0),
                None => false,
            }),
    {
        match c {
            Some(c0) => {
                let u = c0 as u32;
                (65 <= u && u <= 90) || (97 <= u && u <= 122) || c0 == '_' || (48 <= u && u
                    <= 57)
            },
            None => false,
        }
    }

    /// The current lexeme: the source text from `start` to `current`.
    fn lexeme_text(&self) -> (s: String)
        requires
            self.wf(),
        ensures
            s@ == self.source@.subrange(self.start as int, self.current as int),
    {
        self.text.as_str().substring_char(self.start, self.current).to_owned()
    }

    /// Appends a token of the given category whose lexeme is the current
    /// one, carrying `literal`, at line `tok_line`.
    fn add_token_literal(&mut self, ttype: TokenType, literal: Option<Literal>, tok_line: usize)
        requires
            old(self).wf(),
        ensures
            final(self).wf(),
            final(self).text == old(self).text,
            final(self).source == old(self).source,
            final(self).start == old(self).start,
            final(self).current == old(self).current,
            final(self).line == old(self).line,
            final(self).diagnostics == old(self).diagnostics,
            tokens_view(final(self).tokens@) == tokens_view(old(self).tokens@).push(
                SpecToken {
                    ttype,
                    lexeme: old(self).source@.subrange(
                        old(self).start as int,
                        old(self).current as int,
                    ),
                    literal: opt_lit_view(literal),
                    line: tok_line as nat,
                },
            ),
    {
        let lexeme = self.lexeme_text();
        let t = Token::new(ttype, lexeme, literal, tok_line);
        self.tokens.push(t);
        proof {
            lemma_tokens_view_push(old(self).tokens@, t);
        }
    }

    /// Appends a token with no literal at the current line.
    fn add_token(&mut self, ttype: TokenType)
        requires
            old(self).wf(),
        ensures
            final(self).wf(),
            final(self).text == old(self).text,
            final(self).source == old(self).source,
            final(self).start == old(self).start,
            final(self).current == old(self).current,
            final(self).line == old(self).line,
            final(self).diagnostics == old(self).diagnostics,
            tokens_view(final(self).tokens@) == tokens_view(old(self).tokens@).push(
                SpecToken {
                    ttype,
                    lexeme: old(self).source@.subrange(
                        old(self).start as int,
                        old(self).current as int,
                    ),
                    literal: None,
                    line: old(self).line as nat,
                },
            ),
    {
        let line = self.line;
        self.add_token_literal(ttype, None, line);
    }

    /// Scans a string literal. The opening quote is already consumed; every
    /// newline in the body increments the line counter; an input exhausted
    /// before the closing quote is the "Unterminated string" error.
    #[verifier::loop_isolation(false)]
    fn string(&mut self) -> (r: Result<(), LoxError>)
        requires
            old(self).wf(),
            old(self).start + 1 == old(self).current,
            old(self).start < old(self).source@.len(),
            old(self).source@[old(self).start as int] == '"',
        ensures
            final(self).wf(),
            final(self).text == old(self).text,
            final(self).source == old(self).source,
            final(self).start == old(self).start,
            final(self).diagnostics == old(self).diagnostics,
            ({
                let st = scan_step(
                    old(self).source@,
                    old(self).start as int,
                    old(self).line as nat,
                );
                &&& final(self).current as int == st.end
                &&& final(self).line as nat == st.line
                &&& tokens_view(final(self).tokens@) == tokens_view(old(self).tokens@)
                    + opt_seq(st.token)
                &&& (match st.diag {
                    Some(d) => r matches Err(e) && e@ == d,
                    None => r is Ok,
                })
            }),
    {
        let ghost self0 = *self;
        let ghost src = self0.source@;
        let ghost pos = self0.start as int;
        let ghost line0 = self0.line as nat;
        let tok_line = self.line;
        let ghost body_start = self0.current as int;
        while self.current < self.source.len() && self.source[self.current] != '"'
            invariant
                self.wf(),
                self.source@ == src,
                self.text == self0.text,
                self.source == self0.source,
                self.tokens == self0.tokens,
                self.diagnostics == self0.diagnostics,
                self.start == self0.start,
                body_start <= self.current <= src.len(),
                tok_line == self0.line,
                string_body_end(src, body_start) == string_body_end(src, self.current as int),
                self.line as nat == line0 + newlines(
                    src.subrange(body_start, self.current as int),
                ),
            decreases src.len() - self.current,
        {
            let c = self.source[self.current];
            if c == '\n' {
                self.line = self.line + 1;
            }
            self.advance();
            proof {
                let r2 = src.subrange(body_start, self.current as int);
                assert(r2.len() > 0);
                assert(r2.drop_last() =~= src.subrange(body_start, self.current as int - 1));
                assert(r2.last() == src[self.current as int - 1]);
            }
        }
        proof {
            assert(string_body_end(src, self.current as int) == self.current as int);
        }
        if self.is_at_end() {
            proof {
                let st = scan_step(src, pos, line0);
                assert(st.diag is Some);
                assert(tokens_view(self.tokens@) =~= tokens_view(self0.tokens@) + opt_seq(
                    st.token,
                ));
            }
            return Err(LoxError::new(self.line, String::from_str("Unterminated string")));
        }
        self.advance();
        let value = self.text.as_str().substring_char(self.start + 1, self.current - 1).to_owned();
        self.add_token_literal(TokenType::Str, Some(Literal::Str(value)), tok_line);
        proof {
            let st = scan_step(src, pos, line0);
            assert(st.token is Some);
            assert(tokens_view(self.tokens@) =~= tokens_view(self0.tokens@) + opt_seq(
                st.token,
            ));
        }
        Ok(())
    }

    /// Scans a number literal: a maximal run of digits, optionally a dot
    /// followed by at least one digit and a further maximal run. The token
    /// carries the numeric text as its literal.
    #[verifier::loop_isolation(false)]
    fn number(&mut self)
        requires
            old(self).wf(),
            old(self).start + 1 == old(self).current,
            old(self).start < old(self).source@.len(),
            is_digit(old(self).source@[old(self).start as int]),
        ensures
            final(self).wf(),
            final(self).text == old(self).text,
            final(self).source == old(self).source,
            final(self).start == old(self).start,
            final(self).line == old(self).line,
            final(self).diagnostics == old(self).diagnostics,
            ({
                let st = scan_step(
                    old(self).source@,
                    old(self).start as int,
                    old(self).line as nat,
                );
                &&& final(self).current as int == st.end
                &&& tokens_view(final(self).tokens@) == tokens_view(old(self).tokens@)
                    + opt_seq(st.token)
            }),
    {
        let ghost src = old(self).source@;
        let ghost pos = old(self).start as int;
        while Self::is_digit(self.peek())
            invariant
                self.wf(),
                self.source@ == src,
                self.text == old(self).text,
                self.source == old(self).source,
                self.tokens == old(self).tokens,
                self.diagnostics == old(self).diagnostics,
                self.start == old(self).start,
                self.line == old(self).line,
                pos < self.current as int <= src.len(),
                digits_end(src, pos) == digits_end(src, self.current as int),
            decreases src.len() - self.current,
        {
            self.advance();
        }
        proof {
            assert(digits_end(src, self.current as int) == self.current as int);
        }
        let ghost ie = self.current as int;
        let dot = match self.peek() {
            Some(c0) => c0 == '.',
            None => false,
        };
        if dot && Self::is_digit(self.peek_next()) {
            self.advance();
            while Self::is_digit(self.peek())
                invariant
                    self.wf(),
                    self.source@ == src,
                    self.text == old(self).text,
                    self.source == old(self).source,
                    self.tokens == old(self).tokens,
                    self.diagnostics == old(self).diagnostics,
                    self.start == old(self).start,
                    self.line == old(self).line,
                    ie + 1 <= self.current as int <= src.len(),
                    digits_end(src, ie + 1) == digits_end(src, self.current as int),
                decreases src.len() - self.current,
            {
                self.advance();
            }
            proof {
                assert(digits_end(src, self.current as int) == self.current as int);
            }
        }
        let value = self.lexeme_text();
        let tok_line = self.line;
        self.add_token_literal(TokenType::Number, Some(Literal::Num(value)), tok_line);
        proof {
            let st = scan_step(src, pos, old(self).line as nat);
            assert(st.token is Some);
            assert(tokens_view(self.tokens@) =~= tokens_view(old(self).tokens@) + opt_seq(
                st.token,
            ));
        }
    }

    /// Scans an identifier or keyword: a maximal run of alphanumeric
    /// characters and underscores, then an exact keyword lookup.
    #[verifier::loop_isolation(false)]
    fn identifier(&mut self)
        requires
            old(self).wf(),
            old(self).start + 1 == old(self).current,
            old(self).start < old(self).source@.len(),
            is_alpha(old(self).source@[old(self).start as int]),
        ensures
            final(self).wf(),
            final(self).text == old(self).text,
            final(self).source == old(self).source,
            final(self).start == old(self).start,
            final(self).line == old(self).line,
            final(self).diagnostics == old(self).diagnostics,
            ({
                let st = scan_step(
                    old(self).source@,
                    old(self).start as int,
                    old(self).line as nat,
                );
                &&& final(self).current as int == st.end
                &&& tokens_view(final(self).tokens@) == tokens_view(old(self).tokens@)
                    + opt_seq(st.token)
            }),
    {
        let ghost src = old(self).source@;
        let ghost pos = old(self).start as int;
        while Self::is_alpha_numeric(self.peek())
            invariant
                self.wf(),
                self.source@ == src,
                self.text == old(self).text,
                self.source == old(self).source,
                self.tokens == old(self).tokens,
                self.diagnostics == old(self).diagnostics,
                self.start == old(self).start,
                self.line == old(self).line,
                pos < self.current as int <= src.len(),
                ident_end(src, pos) == ident_end(src, self.current as int),
            decreases src.len() - self.current,
        {
            self.advance();
        }
        proof {
            assert(ident_end(src, self.current as int) == self.current as int);
        }
        let lexeme = self.lexeme_text();
        let ttype = match match_keyword(&lexeme) {
            Some(k) => k,
            None => TokenType::Identifier,
        };
        self.add_token(ttype);
        proof {
            let st = scan_step(src, pos, old(self).line as nat);
            assert(st.token is Some);
            assert(tokens_view(self.tokens@) =~= tokens_view(old(self).tokens@) + opt_seq(
                st.token,
            ));
        }
    }

    /// Classifies one token starting at the cursor: consumes its characters,
    /// appends at most one token, and reports a lexical error as `Err`.
    #[verifier::loop_isolation(false)]
    fn scan_token(&mut self) -> (r: Result<(), LoxError>)
        requires
            old(self).wf(),
            old(self).start == old(self).current,
            old(self).current < old(self).source@.len(),
        ensures
            final(self).wf(),
            final(self).text == old(self).text,
            final(self).source == old(self).source,
            final(self).diagnostics == old(self).diagnostics,
            ({
                let st = scan_step(
                    old(self).source@,
                    old(self).current as int,
                    old(self).line as nat,
                );
                &&& final(self).current as int == st.end
                &&& final(self).line as nat == st.line
                &&& tokens_view(final(self).tokens@) == tokens_view(old(self).tokens@)
                    + opt_seq(st.token)
                &&& (match st.diag {
                    Some(d) => r matches Err(e) && e@ == d,
                    None => r is Ok,
                })
            }),
    {
        let ghost src = old(self).source@;
        let ghost pos = old(self).current as int;
        let ghost line0 = old(self).line as nat;
        let ghost st = scan_step(src, pos, line0);
        let c = self.advance();
        let r: Result<(), LoxError> = match c {
            '(' => {
                self.add_token(TokenType::LeftParen);
                Ok(())
            },
            ')' => {
                self.add_token(TokenType::RightParen);
                Ok(())
            },
            '{' => {
                self.add_token(TokenType::LeftBrace);
                Ok(())
            },
            '}' => {
                self.add_token(TokenType::RightBrace);
                Ok(())
            },
            ',' => {
                self.add_token(TokenType::Comma);
                Ok(())
            },
            '.' => {
                self.add_token(TokenType::Dot);
                Ok(())
            },
            '-' => {
                self.add_token(TokenType::Minus);
                Ok(())
            },
            '+' => {
                self.add_token(TokenType::Plus);
                Ok(())
            },
            ';' => {
                self.add_token(TokenType::Semicolon);
                Ok(())
            },
            '*' => {
                self.add_token(TokenType::Star);
                Ok(())
            },
            '!' => {
                if self.is_match('=') {
                    self.add_token(TokenType::BangEqual);
                } else {
                    self.add_token(TokenType::Bang);
                }
                Ok(())
            },
            '=' => {
                if self.is_match('=') {
                    self.add_token(TokenType::EqualEqual);
                } else {
                    self.add_token(TokenType::Equal);
                }
                Ok(())
            },
            '<' => {
                if self.is_match('=') {
                    self.add_token(TokenType::LessEqual);
                } else {
                    self.add_token(TokenType::Less);
                }
                Ok(())
            },
            '>' => {
                if self.is_match('=') {
                    self.add_token(TokenType::GreaterEqual);
                } else {
                    self.add_token(TokenType::Greater);
                }
                Ok(())
            },
            '/' => {
                if self.is_match('/') {
                    // A line comment: consume up to, not including, the next
                    // newline or the end of the input; emit nothing.
                    let ghost cstart = self.current as int;
                    while self.current < self.source.len() && self.source[self.current] != '\n'
                        invariant
                            self.wf(),
                            self.source@ == src,
                            self.text == old(self).text,
                            self.source == old(self).source,
                            self.tokens == old(self).tokens,
                            self.diagnostics == old(self).diagnostics,
                            self.start == old(self).start,
                            self.line == old(self).line,
                            cstart <= self.current as int <= src.len(),
                            comment_end(src, cstart) == comment_end(src, self.current as int),
                        decreases src.len() - self.current,
                    {
                        self.advance();
                    }
                    proof {
                        assert(comment_end(src, self.current as int) == self.current as int);
                    }
                } else {
                    self.add_token(TokenType::Slash);
                }
                Ok(())
            },
            ' ' | '\r' | '\t' => Ok(()),
            '\n' => {
                self.line = self.line + 1;
                Ok(())
            },
            '"' => self.string(),
            _ => {
                let u = c as u32;
                if 48 <= u && u <= 57 {
                    self.number();
                    Ok(())
                } else if (65 <= u && u <= 90) || (97 <= u && u <= 122) || c == '_' {
                    self.identifier();
                    Ok(())
                } else {
                    Err(LoxError::new(self.line, String::from_str("Unexpected character")))
                }
            },
        };
        proof {
            if st.token is None {
                assert(tokens_view(self.tokens@) =~= tokens_view(old(self).tokens@) + opt_seq(
                    st.token,
                ));
            }
        }
        r
    }

    /// Scans the remaining input to its end: repeatedly classifies one
    /// token, accumulating tokens and diagnostics, then appends the
    /// end-of-input sentinel on the final line. Returns the tokens when the
    /// pass was clean, and the last diagnostic otherwise; either way the
    /// token sequence is complete and every diagnostic of the pass stands
    /// in source order in `diagnostics`.
    #[verifier::loop_isolation(false)]
    pub fn scan_tokens(&mut self) -> (r: Result<&Vec<Token>, LoxError>)
        requires
            old(self).wf(),
        ensures
            final(self).wf(),
            final(self).src() == old(self).src(),
            ({
                let full = scan_from(old(self).src(), old(self).pos(), old(self).cur_line());
                &&& final(self).toks() == old(self).toks() + full.tokens
                &&& final(self).digs() == old(self).digs() + full.diags
                &&& final(self).pos() == old(self).src().len() as int
                &&& final(self).cur_line() == full.end_line
                &&& (r is Ok <==> full.diags.len() == 0)
                &&& (match r {
                    Ok(v) => tokens_view(v@) == final(self).toks(),
                    Err(e) => full.diags.len() > 0 && e@ == full.diags.last(),
                })
            }),
    {
        let ghost src = old(self).source@;
        let ghost pos0 = old(self).current as int;
        let ghost line0 = old(self).line as nat;
        let ghost full = scan_from(src, pos0, line0);
        let ghost n0 = old(self).tokens@.len() as int;
        let ghost d0 = old(self).diagnostics@.len() as int;
        let ghost tv0 = tokens_view(old(self).tokens@);
        let ghost dv0 = diags_view(old(self).diagnostics@);
        let dcount0 = self.diagnostics.len();
        proof {
            assert(tokens_view(self.tokens@).skip(n0) =~= Seq::<SpecToken>::empty());
            assert(diags_view(self.diagnostics@).skip(d0) =~= Seq::<DiagView>::empty());
            assert(tokens_view(self.tokens@).subrange(0, n0) =~= tv0);
            assert(diags_view(self.diagnostics@).subrange(0, d0) =~= dv0);
            assert(full.tokens =~= tokens_view(self.tokens@).skip(n0) + scan_from(
                src,
                self.current as int,
                self.line as nat,
            ).tokens);
            assert(full.diags =~= diags_view(self.diagnostics@).skip(d0) + scan_from(
                src,
                self.current as int,
                self.line as nat,
            ).diags);
        }
        while !self.is_at_end()
            invariant
                self.wf(),
                self.source@ == src,
                self.text == old(self).text,
                self.source == old(self).source,
                dcount0 as int == d0,
                old(self).diagnostics@.len() == d0,
                old(self).tokens@.len() == n0,
                self.tokens@.len() >= n0,
                self.diagnostics@.len() >= d0,
                tokens_view(self.tokens@).subrange(0, n0) == tv0,
                diags_view(self.diagnostics@).subrange(0, d0) == dv0,
                full == scan_from(src, pos0, line0),
                full.tokens == tokens_view(self.tokens@).skip(n0) + scan_from(
                    src,
                    self.current as int,
                    self.line as nat,
                ).tokens,
                full.diags == diags_view(self.diagnostics@).skip(d0) + scan_from(
                    src,
                    self.current as int,
                    self.line as nat,
                ).diags,
                full.end_line == scan_from(src, self.current as int, self.line as nat).end_line,
            decreases src.len() - self.current,
        {
            let ghost pre = *self;
            let ghost st = scan_step(src, self.current as int, self.line as nat);
            proof {
                lemma_step_bounds(src, self.current as int, self.line as nat);
            }
            self.start = self.current;
            let res = self.scan_token();
            match res {
                Ok(()) => {},
                Err(e) => {
                    proof {
                        lemma_diags_view_push(pre.diagnostics@, e);
                    }
                    self.diagnostics.push(e);
                },
            }
            proof {
                assert(tokens_view(self.tokens@).subrange(0, n0) =~= tv0);
                assert(diags_view(self.diagnostics@).subrange(0, d0) =~= dv0);
                assert(tokens_view(self.tokens@).skip(n0) =~= tokens_view(pre.tokens@).skip(n0)
                    + opt_seq(st.token));
                assert(diags_view(self.diagnostics@).skip(d0) =~= diags_view(
                    pre.diagnostics@,
                ).skip(d0) + opt_seq(st.diag));
                assert(full.tokens =~= tokens_view(self.tokens@).skip(n0) + scan_from(
                    src,
                    self.current as int,
                    self.line as nat,
                ).tokens);
                assert(full.diags =~= diags_view(self.diagnostics@).skip(d0) + scan_from(
                    src,
                    self.current as int,
                    self.line as nat,
                ).diags);
            }
        }
        let eof_line = self.line;
        let t = Token::eof(eof_line);
        proof {
            lemma_tokens_view_push(self.tokens@, t);
        }
        self.tokens.push(t);
        proof {
            assert(tokens_view(self.tokens@).subrange(0, n0) =~= tv0);
            assert(full.tokens =~= tokens_view(self.tokens@).skip(n0));
            assert(tokens_view(self.tokens@) =~= tokens_view(self.tokens@).subrange(0, n0)
                + tokens_view(self.tokens@).skip(n0));
            assert(full.diags =~= diags_view(self.diagnostics@).skip(d0));
            assert(diags_view(self.diagnostics@) =~= diags_view(self.diagnostics@).subrange(
                0,
                d0,
            ) + diags_view(self.diagnostics@).skip(d0));
        }
        let dlen = self.diagnostics.len();
        if dlen > dcount0 {
            let line = self.diagnostics[dlen - 1].line;
            let message = self.diagnostics[dlen - 1].message.clone();
            proof {
                assert(full.diags.last() == diags_view(self.diagnostics@).last());
            }
            Err(LoxError::new(line, message))
        } else {
            proof {
                assert(full.diags =~= Seq::<DiagView>::empty());
            }
            Ok(&self.tokens)
        }
    }
}

} // verus!
