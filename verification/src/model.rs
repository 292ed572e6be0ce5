//! Mathematical model of the scan.
//!
//! `scan_step` says what one classification step does to a position and a
//! line counter, and which token or diagnostic it produces; `scan_from`
//! iterates it to the end of the input and appends the end-of-input
//! sentinel. The executable scanner's contracts are stated against these
//! functions, and the general laws of the scanner are proved about them.

use vstd::prelude::*;

use crate::token_type::TokenType;

verus! {

// ---------------------------------------------------------------------------
// Character classes
// ---------------------------------------------------------------------------

/// An ASCII decimal digit.
pub open spec fn is_digit(c: char) -> bool {
    48 <= c as u32 <= 57
}

/// An ASCII alphabetic character or underscore: what may start an identifier.
pub open spec fn is_alpha(c: char) -> bool {
    (65 <= c as u32 <= 90) || (97 <= c as u32 <= 122) || c == '_'
}

/// What may continue an identifier: alphanumeric or underscore.
pub open spec fn is_alnum(c: char) -> bool {
    is_alpha(c) || is_digit(c)
}

/// The number of newline characters in a sequence.
pub open spec fn newlines(s: Seq<char>) -> nat
    decreases s.len(),
{
    if s.len() == 0 {
        0
    } else {
        newlines(s.drop_last()) + (if s.last() == '\n' {
            1nat
        } else {
            0nat
        })
    }
}

// ---------------------------------------------------------------------------
// Forward searches used by single steps
// ---------------------------------------------------------------------------

/// The position of the next newline at or after `i`, or the input's length:
/// where a line comment stops consuming.
pub open spec fn comment_end(src: Seq<char>, i: int) -> int
    decreases src.len() - i when 0 <= i <= src.len()
{
    if i >= src.len() || src[i] == '\n' {
        i
    } else {
        comment_end(src, i + 1)
    }
}

/// The position of the next double quote at or after `i`, or the input's
/// length: where a string-literal body stops.
pub open spec fn string_body_end(src: Seq<char>, i: int) -> int
    decreases src.len() - i when 0 <= i <= src.len()
{
    if i >= src.len() || src[i] == '"' {
        i
    } else {
        string_body_end(src, i + 1)
    }
}

/// The position of the first non-digit at or after `i`, or the input's length.
pub open spec fn digits_end(src: Seq<char>, i: int) -> int
    decreases src.len() - i when 0 <= i <= src.len()
{
    if i >= src.len() || !is_digit(src[i]) {
        i
    } else {
        digits_end(src, i + 1)
    }
}

/// The position of the first character at or after `i` that cannot continue
/// an identifier, or the input's length.
pub open spec fn ident_end(src: Seq<char>, i: int) -> int
    decreases src.len() - i when 0 <= i <= src.len()
{
    if i >= src.len() || !is_alnum(src[i]) {
        i
    } else {
        ident_end(src, i + 1)
    }
}

pub proof fn lemma_comment_end(src: Seq<char>, i: int)
    requires
        0 <= i <= src.len(),
    ensures
        i <= comment_end(src, i) <= src.len(),
        forall|k: int| i <= k < comment_end(src, i) ==> src[k] != '\n',
        comment_end(src, i) < src.len() ==> src[comment_end(src, i)] == '\n',
    decreases src.len() - i,
{
    if i < src.len() && src[i] != '\n' {
        lemma_comment_end(src, i + 1);
    }
}

pub proof fn lemma_string_body_end(src: Seq<char>, i: int)
    requires
        0 <= i <= src.len(),
    ensures
        i <= string_body_end(src, i) <= src.len(),
        forall|k: int| i <= k < string_body_end(src, i) ==> src[k] != '"',
        string_body_end(src, i) < src.len() ==> src[string_body_end(src, i)] == '"',
    decreases src.len() - i,
{
    if i < src.len() && src[i] != '"' {
        lemma_string_body_end(src, i + 1);
    }
}

pub proof fn lemma_digits_end(src: Seq<char>, i: int)
    requires
        0 <= i <= src.len(),
    ensures
        i <= digits_end(src, i) <= src.len(),
        forall|k: int| i <= k < digits_end(src, i) ==> is_digit(src[k]),
        digits_end(src, i) < src.len() ==> !is_digit(src[digits_end(src, i)]),
    decreases src.len() - i,
{
    if i < src.len() && is_digit(src[i]) {
        lemma_digits_end(src, i + 1);
    }
}

pub proof fn lemma_ident_end(src: Seq<char>, i: int)
    requires
        0 <= i <= src.len(),
    ensures
        i <= ident_end(src, i) <= src.len(),
        forall|k: int| i <= k < ident_end(src, i) ==> is_alnum(src[k]),
        ident_end(src, i) < src.len() ==> !is_alnum(src[ident_end(src, i)]),
    decreases src.len() - i,
{
    if i < src.len() && is_alnum(src[i]) {
        lemma_ident_end(src, i + 1);
    }
}

// ---------------------------------------------------------------------------
// Keywords
// ---------------------------------------------------------------------------

/// The fixed keyword table: exact, case-sensitive matching of a whole lexeme.
pub open spec fn keyword_of(s: Seq<char>) -> Option<TokenType> {
    if s == "and"@ {
        Some(TokenType::And)
    } else if s == "class"@ {
        Some(TokenType::Class)
    } else if s == "else"@ {
        Some(TokenType::Else)
    } else if s == "false"@ {
        Some(TokenType::False)
    } else if s == "for"@ {
        Some(TokenType::For)
    } else if s == "fun"@ {
        Some(TokenType::Fun)
    } else if s == "if"@ {
        Some(TokenType::If)
    } else if s == "nil"@ {
        Some(TokenType::Nil)
    } else if s == "or"@ {
        Some(TokenType::Or)
    } else if s == "print"@ {
        Some(TokenType::Print)
    } else if s == "return"@ {
        Some(TokenType::Return)
    } else if s == "super"@ {
        Some(TokenType::Super)
    } else if s == "this"@ {
        Some(TokenType::This)
    } else if s == "true"@ {
        Some(TokenType::True)
    } else if s == "var"@ {
        Some(TokenType::Var)
    } else if s == "while"@ {
        Some(TokenType::While)
    } else {
        None
    }
}

// ---------------------------------------------------------------------------
// Tokens and diagnostics as mathematical values
// ---------------------------------------------------------------------------

/// Literal payload of a token, as mathematical values. The number literal
/// carries the numeric text exactly as it stands in the source; the string
/// literal carries the body between the quotes. `Nil`, `True` and `False`
/// are reserved for a later stage and never produced by the scanner.
pub enum LitView {
    Num(Seq<char>),
    Str(Seq<char>),
    Nil,
    True,
    False,
}

/// A token as mathematical values.
pub struct SpecToken {
    pub ttype: TokenType,
    pub lexeme: Seq<char>,
    pub literal: Option<LitView>,
    pub line: nat,
}

/// A diagnostic as mathematical values: a 1-based line and a message.
pub struct DiagView {
    pub line: nat,
    pub message: Seq<char>,
}

// ---------------------------------------------------------------------------
// One classification step
// ---------------------------------------------------------------------------

/// Everything one classification step does: the exclusive end of the chunk
/// of input it consumes, the line counter after it, and the token or
/// diagnostic (at most one of the two) it produces.
pub struct Step {
    pub end: int,
    pub line: nat,
    pub token: Option<SpecToken>,
    pub diag: Option<DiagView>,
}

/// A step that consumes `src[pos..end]` and emits a token of that lexeme
/// with no literal, on the line where it started.
pub open spec fn simple_tok(src: Seq<char>, pos: int, line: nat, end: int, ttype: TokenType) -> Step {
    Step {
        end,
        line,
        token: Some(
            SpecToken { ttype, lexeme: src.subrange(pos, end), literal: None, line },
        ),
        diag: None,
    }
}

/// Whether the character after `pos` exists and is `=`: the lookahead that
/// decides between a one- and a two-character operator.
pub open spec fn eq_follows(src: Seq<char>, pos: int) -> bool {
    pos + 1 < src.len() && src[pos + 1] == '='
}

/// One classification step at position `pos` (which must hold a character),
/// with the line counter standing at `line`.
pub open spec fn scan_step(src: Seq<char>, pos: int, line: nat) -> Step
    recommends
        0 <= pos < src.len(),
{
    let c = src[pos];
    if c == '(' {
        simple_tok(src, pos, line, pos + 1, TokenType::LeftParen)
    } else if c == ')' {
        simple_tok(src, pos, line, pos + 1, TokenType::RightParen)
    } else if c == '{' {
        simple_tok(src, pos, line, pos + 1, TokenType::LeftBrace)
    } else if c == '}' {
        simple_tok(src, pos, line, pos + 1, TokenType::RightBrace)
    } else if c == ',' {
        simple_tok(src, pos, line, pos + 1, TokenType::Comma)
    } else if c == '.' {
        simple_tok(src, pos, line, pos + 1, TokenType::Dot)
    } else if c == '-' {
        simple_tok(src, pos, line, pos + 1, TokenType::Minus)
    } else if c == '+' {
        simple_tok(src, pos, line, pos + 1, TokenType::Plus)
    } else if c == ';' {
        simple_tok(src, pos, line, pos + 1, TokenType::Semicolon)
    } else if c == '*' {
        simple_tok(src, pos, line, pos + 1, TokenType::Star)
    } else if c == '!' {
        if eq_follows(src, pos) {
            simple_tok(src, pos, line, pos + 2, TokenType::BangEqual)
        } else {
            simple_tok(src, pos, line, pos + 1, TokenType::Bang)
        }
    } else if c == '=' {
        if eq_follows(src, pos) {
            simple_tok(src, pos, line, pos + 2, TokenType::EqualEqual)
        } else {
            simple_tok(src, pos, line, pos + 1, TokenType::Equal)
        }
    } else if c == '<' {
        if eq_follows(src, pos) {
            simple_tok(src, pos, line, pos + 2, TokenType::LessEqual)
        } else {
            simple_tok(src, pos, line, pos + 1, TokenType::Less)
        }
    } else if c == '>' {
        if eq_follows(src, pos) {
            simple_tok(src, pos, line, pos + 2, TokenType::GreaterEqual)
        } else {
            simple_tok(src, pos, line, pos + 1, TokenType::Greater)
        }
    } else if c == '/' {
        if pos + 1 < src.len() && src[pos + 1] == '/' {
            // A line comment: consumed through the character before the next
            // newline (or to the end of the input), emitting nothing.
            Step { end: comment_end(src, pos + 2), line, token: None, diag: None }
        } else {
            simple_tok(src, pos, line, pos + 1, TokenType::Slash)
        }
    } else if c == ' ' || c == '\r' || c == '\t' {
        Step { end: pos + 1, line, token: None, diag: None }
    } else if c == '\n' {
        Step { end: pos + 1, line: line + 1, token: None, diag: None }
    } else if c == '"' {
        let body_end = string_body_end(src, pos + 1);
        let nl = newlines(src.subrange(pos + 1, body_end));
        if body_end < src.len() {
            Step {
                end: body_end + 1,
                line: line + nl,
                token: Some(
                    SpecToken {
                        ttype: TokenType::Str,
                        lexeme: src.subrange(pos, body_end + 1),
                        literal: Some(LitView::Str(src.subrange(pos + 1, body_end))),
                        line,
                    },
                ),
                diag: None,
            }
        } else {
            Step {
                end: src.len() as int,
                line: line + nl,
                token: None,
                diag: Some(DiagView { line: line + nl, message: "Unterminated string"@ }),
            }
        }
    } else if is_digit(c) {
        let ie = digits_end(src, pos);
        let end = if ie < src.len() && src[ie] == '.' && ie + 1 < src.len() && is_digit(
            src[ie + 1],
        ) {
            digits_end(src, ie + 1)
        } else {
            ie
        };
        Step {
            end,
            line,
            token: Some(
                SpecToken {
                    ttype: TokenType::Number,
                    lexeme: src.subrange(pos, end),
                    literal: Some(LitView::Num(src.subrange(pos, end))),
                    line,
                },
            ),
            diag: None,
        }
    } else if is_alpha(c) {
        let end = ident_end(src, pos);
        let lex = src.subrange(pos, end);
        let ttype = match keyword_of(lex) {
            Some(k) => k,
            None => TokenType::Identifier,
        };
        Step {
            end,
            line,
            token: Some(SpecToken { ttype, lexeme: lex, literal: None, line }),
            diag: None,
        }
    } else {
        Step {
            end: pos + 1,
            line,
            token: None,
            diag: Some(DiagView { line, message: "Unexpected character"@ }),
        }
    }
}

/// Every step consumes at least one character and never runs past the end.
pub proof fn lemma_step_bounds(src: Seq<char>, pos: int, line: nat)
    requires
        0 <= pos < src.len(),
    ensures
        pos < scan_step(src, pos, line).end <= src.len(),
{
    let c = src[pos];
    if c == '/' && pos + 1 < src.len() && src[pos + 1] == '/' {
        lemma_comment_end(src, pos + 2);
    } else if c == '"' {
        lemma_string_body_end(src, pos + 1);
    } else if is_digit(c) {
        lemma_digits_end(src, pos + 1);
        let ie = digits_end(src, pos);
        if ie < src.len() && src[ie] == '.' && ie + 1 < src.len() && is_digit(src[ie + 1]) {
            lemma_digits_end(src, ie + 2);
        }
    } else if is_alpha(c) {
        lemma_ident_end(src, pos + 1);
    }
}

// ---------------------------------------------------------------------------
// Scanning to the end of the input
// ---------------------------------------------------------------------------

/// The result of scanning from a position to the end of the input: the
/// tokens in source order, closed by the end-of-input sentinel; the
/// diagnostics in source order; and the final line counter.
pub struct ScanResult {
    pub tokens: Seq<SpecToken>,
    pub diags: Seq<DiagView>,
    pub end_line: nat,
}

/// An optional value as a sequence of zero or one elements.
pub open spec fn opt_seq<A>(o: Option<A>) -> Seq<A> {
    match o {
        Some(a) => seq![a],
        None => Seq::empty(),
    }
}

/// Scanning from `pos` at line `line` to the end of the input: repeated
/// classification steps, then the end-of-input sentinel on the final line.
pub open spec fn scan_from(src: Seq<char>, pos: int, line: nat) -> ScanResult
    decreases src.len() - pos when 0 <= pos <= src.len()
{
    if pos >= src.len() {
        ScanResult {
            tokens: seq![
                SpecToken {
                    ttype: TokenType::Eof,
                    lexeme: Seq::empty(),
                    literal: None,
                    line,
                },
            ],
            diags: Seq::empty(),
            end_line: line,
        }
    } else {
        let st = scan_step(src, pos, line);
        proof {
            lemma_step_bounds(src, pos, line);
        }
        let rest = scan_from(src, st.end, st.line);
        ScanResult {
            tokens: opt_seq(st.token) + rest.tokens,
            diags: opt_seq(st.diag) + rest.diags,
            end_line: rest.end_line,
        }
    }
}

/// Scanning a whole input: from its first character, at line 1.
pub open spec fn scan(src: Seq<char>) -> ScanResult {
    scan_from(src, 0, 1)
}

// ---------------------------------------------------------------------------
// Newline counting
// ---------------------------------------------------------------------------

pub proof fn lemma_newlines_add(a: Seq<char>, b: Seq<char>)
    ensures
        newlines(a + b) == newlines(a) + newlines(b),
    decreases b.len(),
{
    if b.len() == 0 {
        assert(a + b =~= a);
    } else {
        lemma_newlines_add(a, b.drop_last());
        assert((a + b).drop_last() =~= a + b.drop_last());
        assert((a + b).last() == b.last());
    }
}

pub proof fn lemma_newlines_none(s: Seq<char>)
    requires
        forall|k: int| 0 <= k < s.len() ==> s[k] != '\n',
    ensures
        newlines(s) == 0,
    decreases s.len(),
{
    if s.len() > 0 {
        assert(forall|k: int|
            0 <= k < s.drop_last().len() ==> s.drop_last()[k] == s[k] && s[k] != '\n');
        lemma_newlines_none(s.drop_last());
        assert(s.last() == s[s.len() - 1]);
    }
}

/// One step moves the line counter by exactly the newlines in the chunk of
/// input it consumes.
pub proof fn lemma_step_lines(src: Seq<char>, pos: int, line: nat)
    requires
        0 <= pos < src.len(),
    ensures
        scan_step(src, pos, line).line == line + newlines(
            src.subrange(pos, scan_step(src, pos, line).end),
        ),
{
    let st = scan_step(src, pos, line);
    let c = src[pos];
    lemma_step_bounds(src, pos, line);
    let chunk = src.subrange(pos, st.end);
    if c == '\n' {
        assert(chunk.drop_last() =~= Seq::<char>::empty());
        assert(chunk.last() == '\n');
        assert(newlines(Seq::<char>::empty()) == 0);
        assert(newlines(chunk) == 1);
    } else if c == '"' {
        let be = string_body_end(src, pos + 1);
        lemma_string_body_end(src, pos + 1);
        let quote = src.subrange(pos, pos + 1);
        assert(forall|k: int| 0 <= k < quote.len() ==> quote[k] != '\n');
        lemma_newlines_none(quote);
        if be < src.len() {
            let body = src.subrange(pos + 1, be);
            let close = src.subrange(be, be + 1);
            assert(src.subrange(pos, be) =~= quote + body);
            lemma_newlines_add(quote, body);
            assert(forall|k: int| 0 <= k < close.len() ==> close[k] != '\n');
            lemma_newlines_none(close);
            assert(chunk =~= src.subrange(pos, be) + close);
            lemma_newlines_add(src.subrange(pos, be), close);
        } else {
            let body = src.subrange(pos + 1, src.len() as int);
            assert(chunk =~= quote + body);
            lemma_newlines_add(quote, body);
        }
    } else if c == '/' && pos + 1 < src.len() && src[pos + 1] == '/' {
        lemma_comment_end(src, pos + 2);
        assert(forall|k: int| 0 <= k < chunk.len() ==> chunk[k] != '\n');
        lemma_newlines_none(chunk);
    } else if is_digit(c) {
        lemma_digits_end(src, pos + 1);
        let ie = digits_end(src, pos);
        if ie < src.len() && src[ie] == '.' && ie + 1 < src.len() && is_digit(src[ie + 1]) {
            lemma_digits_end(src, ie + 2);
        }
        assert(forall|k: int| 0 <= k < chunk.len() ==> chunk[k] != '\n');
        lemma_newlines_none(chunk);
    } else if is_alpha(c) {
        lemma_ident_end(src, pos + 1);
        assert(forall|k: int| 0 <= k < chunk.len() ==> chunk[k] != '\n');
        lemma_newlines_none(chunk);
    } else {
        assert(forall|k: int| 0 <= k < chunk.len() ==> chunk[k] != '\n');
        lemma_newlines_none(chunk);
    }
}

pub proof fn lemma_scan_from_lines(src: Seq<char>, pos: int, line: nat)
    requires
        0 <= pos <= src.len(),
    ensures
        scan_from(src, pos, line).end_line == line + newlines(
            src.subrange(pos, src.len() as int),
        ),
    decreases src.len() - pos,
{
    if pos >= src.len() {
        assert(src.subrange(pos, src.len() as int) =~= Seq::<char>::empty());
    } else {
        let st = scan_step(src, pos, line);
        lemma_step_bounds(src, pos, line);
        lemma_step_lines(src, pos, line);
        lemma_scan_from_lines(src, st.end, st.line);
        assert(src.subrange(pos, src.len() as int) =~= src.subrange(pos, st.end) + src.subrange(
            st.end,
            src.len() as int,
        ));
        lemma_newlines_add(src.subrange(pos, st.end), src.subrange(st.end, src.len() as int));
    }
}

/// Every newline in the input, wherever it stands, moves the line counter
/// by exactly one, and nothing else moves it: a whole scan ends on line
/// 1 plus the number of newlines in the input.
pub proof fn lemma_line_count(src: Seq<char>)
    ensures
        scan(src).end_line == 1 + newlines(src),
{
    lemma_scan_from_lines(src, 0, 1);
    assert(src.subrange(0, src.len() as int) =~= src);
}

// ---------------------------------------------------------------------------
// Reassembling the input from lexemes and gaps
// ---------------------------------------------------------------------------

/// One consumed chunk of input: the lexeme of an emitted token, or a gap
/// that produced no token.
pub enum Piece {
    Lexeme(Seq<char>),
    Gap(Seq<char>),
}

/// The text of a piece.
pub open spec fn piece_text(p: Piece) -> Seq<char> {
    match p {
        Piece::Lexeme(t) => t,
        Piece::Gap(t) => t,
    }
}

/// The chunks the scan consumes, in order, each tagged by whether it was
/// emitted as a token's lexeme.
pub open spec fn scan_pieces(src: Seq<char>, pos: int, line: nat) -> Seq<Piece>
    decreases src.len() - pos when 0 <= pos <= src.len()
{
    if pos >= src.len() {
        Seq::empty()
    } else {
        let st = scan_step(src, pos, line);
        proof {
            lemma_step_bounds(src, pos, line);
        }
        let chunk = src.subrange(pos, st.end);
        let p = if st.token is Some {
            Piece::Lexeme(chunk)
        } else {
            Piece::Gap(chunk)
        };
        seq![p] + scan_pieces(src, st.end, st.line)
    }
}

/// The concatenation of the pieces' texts.
pub open spec fn pieces_text(ps: Seq<Piece>) -> Seq<char>
    decreases ps.len(),
{
    if ps.len() == 0 {
        Seq::empty()
    } else {
        piece_text(ps[0]) + pieces_text(ps.drop_first())
    }
}

/// The texts of the lexeme pieces alone, in order.
pub open spec fn lexeme_texts(ps: Seq<Piece>) -> Seq<Seq<char>>
    decreases ps.len(),
{
    if ps.len() == 0 {
        Seq::empty()
    } else {
        match ps[0] {
            Piece::Lexeme(t) => seq![t] + lexeme_texts(ps.drop_first()),
            Piece::Gap(_) => lexeme_texts(ps.drop_first()),
        }
    }
}

/// What an error-free scan may skip without emitting a token: one
/// whitespace character, one newline, or a line comment.
pub open spec fn is_gap_text(t: Seq<char>) -> bool {
    ||| t == seq![' ']
    ||| t == seq!['\r']
    ||| t == seq!['\t']
    ||| t == seq!['\n']
    ||| (t.len() >= 2 && t[0] == '/' && t[1] == '/' && (forall|k: int|
        0 <= k < t.len() ==> t[k] != '\n'))
}

/// The pieces tile the remaining input exactly.
pub proof fn lemma_pieces_cover(src: Seq<char>, pos: int, line: nat)
    requires
        0 <= pos <= src.len(),
    ensures
        pieces_text(scan_pieces(src, pos, line)) == src.subrange(pos, src.len() as int),
    decreases src.len() - pos,
{
    if pos >= src.len() {
        assert(src.subrange(pos, src.len() as int) =~= Seq::<char>::empty());
    } else {
        let st = scan_step(src, pos, line);
        lemma_step_bounds(src, pos, line);
        lemma_pieces_cover(src, st.end, st.line);
        let ps = scan_pieces(src, pos, line);
        let rest = scan_pieces(src, st.end, st.line);
        assert(ps.drop_first() =~= rest);
        assert(src.subrange(pos, src.len() as int) =~= src.subrange(pos, st.end) + src.subrange(
            st.end,
            src.len() as int,
        ));
    }
}

/// An emitted token's lexeme is exactly the chunk its step consumed.
pub proof fn lemma_step_token_lexeme(src: Seq<char>, pos: int, line: nat)
    requires
        0 <= pos < src.len(),
    ensures
        (match scan_step(src, pos, line).token {
            Some(t) => t.lexeme == src.subrange(pos, scan_step(src, pos, line).end),
            None => true,
        }),
{
}

/// The scan always emits at least the end-of-input sentinel, it comes
/// last with an empty lexeme, and the lexeme pieces are exactly the
/// lexemes of the other tokens, in order.
pub proof fn lemma_pieces_lexemes(src: Seq<char>, pos: int, line: nat)
    requires
        0 <= pos <= src.len(),
    ensures
        ({
            let toks = scan_from(src, pos, line).tokens;
            &&& toks.len() >= 1
            &&& toks.last().ttype == TokenType::Eof
            &&& toks.last().lexeme == Seq::<char>::empty()
            &&& lexeme_texts(scan_pieces(src, pos, line)) == toks.drop_last().map_values(
                |t: SpecToken| t.lexeme,
            )
        }),
    decreases src.len() - pos,
{
    let toks = scan_from(src, pos, line).tokens;
    if pos >= src.len() {
        assert(toks.drop_last() =~= Seq::<SpecToken>::empty());
        assert(lexeme_texts(scan_pieces(src, pos, line)) =~= toks.drop_last().map_values(
            |t: SpecToken| t.lexeme,
        ));
    } else {
        let st = scan_step(src, pos, line);
        lemma_step_bounds(src, pos, line);
        lemma_step_token_lexeme(src, pos, line);
        lemma_pieces_lexemes(src, st.end, st.line);
        let rest = scan_from(src, st.end, st.line).tokens;
        let ps = scan_pieces(src, pos, line);
        let restp = scan_pieces(src, st.end, st.line);
        assert(ps.drop_first() =~= restp);
        assert(toks.last() == rest.last());
        assert(toks.drop_last() =~= opt_seq(st.token) + rest.drop_last());
        assert(toks.drop_last().map_values(|t: SpecToken| t.lexeme) =~= opt_seq(
            st.token,
        ).map_values(|t: SpecToken| t.lexeme) + rest.drop_last().map_values(
            |t: SpecToken| t.lexeme,
        ));
        match st.token {
            Some(t) => {
                assert(opt_seq(st.token).map_values(|t0: SpecToken| t0.lexeme) =~= seq![
                    t.lexeme,
                ]);
            },
            None => {
                assert(opt_seq(st.token).map_values(|t0: SpecToken| t0.lexeme)
                    =~= Seq::<Seq<char>>::empty());
                assert(lexeme_texts(ps) == lexeme_texts(restp));
            },
        }
        assert(lexeme_texts(ps) =~= toks.drop_last().map_values(|t: SpecToken| t.lexeme));
    }
}

/// In an error-free scan, every gap is whitespace or a line comment.
pub proof fn lemma_pieces_gaps(src: Seq<char>, pos: int, line: nat)
    requires
        0 <= pos <= src.len(),
        scan_from(src, pos, line).diags.len() == 0,
    ensures
        forall|i: int|
            0 <= i < scan_pieces(src, pos, line).len() && scan_pieces(src, pos, line)[i] is Gap
                ==> is_gap_text(piece_text(#[trigger] scan_pieces(src, pos, line)[i])),
    decreases src.len() - pos,
{
    if pos < src.len() {
        let st = scan_step(src, pos, line);
        lemma_step_bounds(src, pos, line);
        assert(scan_from(src, pos, line).diags.len() == opt_seq(st.diag).len() + scan_from(
            src,
            st.end,
            st.line,
        ).diags.len());
        assert(st.diag is None);
        lemma_pieces_gaps(src, st.end, st.line);
        let ps = scan_pieces(src, pos, line);
        let restp = scan_pieces(src, st.end, st.line);
        assert(ps.drop_first() =~= restp);
        let chunk = src.subrange(pos, st.end);
        let c = src[pos];
        if st.token is None {
            if c == ' ' {
                assert(chunk =~= seq![' ']);
            } else if c == '\r' {
                assert(chunk =~= seq!['\r']);
            } else if c == '\t' {
                assert(chunk =~= seq!['\t']);
            } else if c == '\n' {
                assert(chunk =~= seq!['\n']);
            } else {
                assert(c == '/' && pos + 1 < src.len() && src[pos + 1] == '/');
                lemma_comment_end(src, pos + 2);
                assert(chunk.len() >= 2);
                assert(chunk[0] == '/' && chunk[1] == '/');
                assert(forall|k: int| 0 <= k < chunk.len() ==> chunk[k] != '\n');
            }
            assert(is_gap_text(chunk));
        }
        assert(forall|i: int|
            1 <= i < ps.len() ==> ps[i] == restp[i - 1] && (ps[i] is Gap ==> is_gap_text(
                piece_text(#[trigger] ps[i]),
            )));
    }
}

/// For an input free of lexical errors, the scan tiles it exactly:
/// concatenating the consumed chunks reproduces the input, the chunks
/// emitted as tokens carry exactly the tokens' lexemes in order (the
/// end-of-input sentinel aside, which has no text), and every skipped
/// chunk is a single whitespace character or a line comment.
pub proof fn lemma_reassemble(src: Seq<char>)
    requires
        scan(src).diags.len() == 0,
    ensures
        pieces_text(scan_pieces(src, 0, 1)) == src,
        lexeme_texts(scan_pieces(src, 0, 1)) == scan(src).tokens.drop_last().map_values(
            |t: SpecToken| t.lexeme,
        ),
        scan(src).tokens.len() >= 1,
        scan(src).tokens.last().ttype == TokenType::Eof,
        scan(src).tokens.last().lexeme == Seq::<char>::empty(),
        forall|i: int|
            0 <= i < scan_pieces(src, 0, 1).len() && scan_pieces(src, 0, 1)[i] is Gap
                ==> is_gap_text(piece_text(#[trigger] scan_pieces(src, 0, 1)[i])),
{
    lemma_pieces_cover(src, 0, 1);
    assert(src.subrange(0, src.len() as int) =~= src);
    lemma_pieces_lexemes(src, 0, 1);
    lemma_pieces_gaps(src, 0, 1);
}

// ---------------------------------------------------------------------------
// Token order
// ---------------------------------------------------------------------------

pub proof fn lemma_token_lines(src: Seq<char>, pos: int, line: nat)
    requires
        0 <= pos <= src.len(),
    ensures
        ({
            let r = scan_from(src, pos, line);
            &&& line <= r.end_line
            &&& r.tokens.len() >= 1
            &&& r.tokens.last().line == r.end_line
            &&& forall|i: int|
                0 <= i < r.tokens.len() ==> line <= (#[trigger] r.tokens[i]).line <= r.end_line
            &&& forall|i: int, j: int|
                0 <= i <= j < r.tokens.len() ==> (#[trigger] r.tokens[i]).line <= (
                #[trigger] r.tokens[j]).line
        }),
    decreases src.len() - pos,
{
    if pos < src.len() {
        let st = scan_step(src, pos, line);
        lemma_step_bounds(src, pos, line);
        lemma_token_lines(src, st.end, st.line);
        let r = scan_from(src, pos, line);
        let rest = scan_from(src, st.end, st.line);
        assert(line <= st.line);
        assert(r.tokens.last() == rest.tokens.last());
        assert(forall|i: int|
            opt_seq(st.token).len() <= i < r.tokens.len() ==> #[trigger] r.tokens[i]
                == rest.tokens[i - opt_seq(st.token).len()]);
    }
}

pub proof fn lemma_diag_lines(src: Seq<char>, pos: int, line: nat)
    requires
        0 <= pos <= src.len(),
    ensures
        ({
            let r = scan_from(src, pos, line);
            &&& line <= r.end_line
            &&& forall|i: int|
                0 <= i < r.diags.len() ==> line <= (#[trigger] r.diags[i]).line <= r.end_line
            &&& forall|i: int, j: int|
                0 <= i <= j < r.diags.len() ==> (#[trigger] r.diags[i]).line <= (
                #[trigger] r.diags[j]).line
        }),
    decreases src.len() - pos,
{
    if pos < src.len() {
        let st = scan_step(src, pos, line);
        lemma_step_bounds(src, pos, line);
        lemma_diag_lines(src, st.end, st.line);
        let r = scan_from(src, pos, line);
        let rest = scan_from(src, st.end, st.line);
        assert(line <= st.line);
        match st.diag {
            Some(d) => assert(line <= d.line <= st.line),
            None => {},
        }
        assert(forall|i: int|
            opt_seq(st.diag).len() <= i < r.diags.len() ==> #[trigger] r.diags[i]
                == rest.diags[i - opt_seq(st.diag).len()]);
    }
}

/// Diagnostics are reported in source order: along the sequence their line
/// numbers never decrease, and all lie between 1 and the final line.
pub proof fn lemma_diag_order(src: Seq<char>)
    ensures
        ({
            let r = scan(src);
            &&& forall|i: int| 0 <= i < r.diags.len() ==> 1 <= (#[trigger] r.diags[i]).line
                <= r.end_line
            &&& forall|i: int, j: int|
                0 <= i <= j < r.diags.len() ==> (#[trigger] r.diags[i]).line <= (
                #[trigger] r.diags[j]).line
        }),
{
    lemma_diag_lines(src, 0, 1);
}

/// Every scan, clean or not, closes its token sequence with the
/// end-of-input sentinel: the sequence is never empty, its last token is
/// `Eof` with an empty lexeme on the final line, and the tokens' line
/// numbers never decrease along the sequence.
pub proof fn lemma_sentinel_and_line_order(src: Seq<char>)
    ensures
        ({
            let r = scan(src);
            &&& r.tokens.len() >= 1
            &&& r.tokens.last().ttype == TokenType::Eof
            &&& r.tokens.last().lexeme == Seq::<char>::empty()
            &&& r.tokens.last().line == r.end_line
            &&& forall|i: int, j: int|
                0 <= i <= j < r.tokens.len() ==> (#[trigger] r.tokens[i]).line <= (
                #[trigger] r.tokens[j]).line
        }),
{
    lemma_token_lines(src, 0, 1);
    lemma_pieces_lexemes(src, 0, 1);
}

} // verus!

