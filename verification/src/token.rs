//! Tokens: immutable records of one lexical unit.

use vstd::prelude::*;

use crate::model::{LitView, SpecToken};
use crate::token_type::TokenType;

verus! {

/// Literal payload of a token. The scanner fills `Num` with the numeric
/// text exactly as it stands in the source (so downstream stages may parse
/// it as they see fit) and `Str` with the body between the quotes. `Nil`,
/// `True` and `False` are reserved for a later parsing stage and never
/// produced by the scanner.
#[derive(Debug, Clone, PartialEq)]
pub enum Literal {
    Num(String),
    Str(String),
    Nil,
    True,
    False,
}

impl View for Literal {
    type V = LitView;

    open spec fn view(&self) -> LitView {
        match self {
            Literal::Num(s) => LitView::Num(s@),
            Literal::Str(s) => LitView::Str(s@),
            Literal::Nil => LitView::Nil,
            Literal::True => LitView::True,
            Literal::False => LitView::False,
        }
    }
}

/// The view of an optional literal.
pub open spec fn opt_lit_view(o: Option<Literal>) -> Option<LitView> {
    match o {
        Some(l) => Some(l@),
        None => None,
    }
}

/// A token: its lexical category, the exact source substring that produced
/// it, an optional parsed literal (present only for string and number
/// tokens), and the 1-based line where its first character occurred.
#[derive(Debug, Clone, PartialEq)]
pub struct Token {
    pub ttype: TokenType,
    pub lexeme: String,
    pub literal: Option<Literal>,
    pub line: usize,
}

impl View for Token {
    type V = SpecToken;

    open spec fn view(&self) -> SpecToken {
        SpecToken {
            ttype: self.ttype,
            lexeme: self.lexeme@,
            literal: opt_lit_view(self.literal),
            line: self.line as nat,
        }
    }
}

/// The views of a sequence of tokens.
pub open spec fn tokens_view(s: Seq<Token>) -> Seq<SpecToken> {
    s.map_values(|t: Token| t@)
}

pub proof fn lemma_tokens_view_push(s: Seq<Token>, t: Token)
    ensures
        tokens_view(s.push(t)) == tokens_view(s).push(t@),
{
    assert(tokens_view(s.push(t)) =~= tokens_view(s).push(t@));
}

impl Token {
    pub fn new(ttype: TokenType, lexeme: String, literal: Option<Literal>, line: usize) -> (t: Token)
        ensures
            t@ == (SpecToken {
                ttype,
                lexeme: lexeme@,
                literal: opt_lit_view(literal),
                line: line as nat,
            }),
    {
        Token { ttype, lexeme, literal, line }
    }

    /// The end-of-input sentinel: empty lexeme, no literal, the line where
    /// the input ended.
    pub fn eof(line: usize) -> (t: Token)
        ensures
            t@ == (SpecToken {
                ttype: TokenType::Eof,
                lexeme: Seq::<char>::empty(),
                literal: None,
                line: line as nat,
            }),
    {
        Token { ttype: TokenType::Eof, lexeme: String::new(), literal: None, line }
    }
}

} // verus!
