//! Lexical-error diagnostics.

use vstd::prelude::*;
use vstd::string::StringExecFns;

use crate::model::DiagView;

verus! {

/// A lexical-error diagnostic: the 1-based source line where the error was
/// detected and a human-readable message.
#[derive(Debug, Clone)]
pub struct LoxError {
    pub line: usize,
    pub message: String,
}

impl View for LoxError {
    type V = DiagView;

    open spec fn view(&self) -> DiagView {
        DiagView { line: self.line as nat, message: self.message@ }
    }
}

/// The views of a sequence of diagnostics.
pub open spec fn diags_view(s: Seq<LoxError>) -> Seq<DiagView> {
    s.map_values(|e: LoxError| e@)
}

pub proof fn lemma_diags_view_push(s: Seq<LoxError>, e: LoxError)
    ensures
        diags_view(s.push(e)) == diags_view(s).push(e@),
{
    assert(diags_view(s.push(e)) =~= diags_view(s).push(e@));
}

/// The character for one decimal digit.
pub open spec fn digit_char(d: nat) -> char
    recommends
        d < 10,
{
    if d == 0 {
        '0'
    } else if d == 1 {
        '1'
    } else if d == 2 {
        '2'
    } else if d == 3 {
        '3'
    } else if d == 4 {
        '4'
    } else if d == 5 {
        '5'
    } else if d == 6 {
        '6'
    } else if d == 7 {
        '7'
    } else if d == 8 {
        '8'
    } else {
        '9'
    }
}

/// The decimal digits of `n`, most significant first, without leading
/// zeros (a single `0` for zero).
pub open spec fn spec_decimal(n: nat) -> Seq<char>
    decreases n,
{
    if n < 10 {
        seq![digit_char(n)]
    } else {
        spec_decimal(n / 10).push(digit_char(n % 10))
    }
}

fn digit_str(d: usize) -> (s: &'static str)
    requires
        d < 10,
    ensures
        s@ == seq![digit_char(d as nat)],
{
    proof {
        reveal_strlit("0");
        reveal_strlit("1");
        reveal_strlit("2");
        reveal_strlit("3");
        reveal_strlit("4");
        reveal_strlit("5");
        reveal_strlit("6");
        reveal_strlit("7");
        reveal_strlit("8");
        reveal_strlit("9");
    }
    let s = match d {
        0 => "0",
        1 => "1",
        2 => "2",
        3 => "3",
        4 => "4",
        5 => "5",
        6 => "6",
        7 => "7",
        8 => "8",
        _ => "9",
    };
    proof {
        assert(s@ =~= seq![digit_char(d as nat)]);
    }
    s
}

/// Appends the decimal digits of `n` to `out`.
fn push_decimal(n: usize, out: &mut String)
    ensures
        final(out)@ == old(out)@ + spec_decimal(n as nat),
    decreases n,
{
    if n < 10 {
        out.append(digit_str(n));
    } else {
        push_decimal(n / 10, out);
        out.append(digit_str(n % 10));
        proof {
            assert(out@ =~= old(out)@ + spec_decimal(n as nat));
        }
    }
}

impl LoxError {
    pub fn new(line: usize, message: String) -> (e: Self)
        ensures
            e@ == (DiagView { line: line as nat, message: message@ }),
    {
        Self { line, message }
    }

    /// Renders the diagnostic as `[line <N>] Error: <message>`, ready for
    /// an error-reporting sink.
    pub fn render(&self) -> (s: String)
        ensures
            s@ == "[line "@ + spec_decimal(self.line as nat) + "] Error: "@ + self.message@,
    {
        let mut s = String::from_str("[line ");
        push_decimal(self.line, &mut s);
        s.append("] Error: ");
        s.append(self.message.as_str());
        proof {
            assert(s@ =~= "[line "@ + spec_decimal(self.line as nat) + "] Error: "@
                + self.message@);
        }
        s
    }
}

} // verus!
