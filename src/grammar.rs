//! The scanner's behaviour as mathematics: what one scan step makes of the
//! text in front of it, and the token sequence (or failure) a whole input
//! gives.

use vstd::prelude::*;
use crate::token::{is_digit, is_number_char, is_number_text, TokenType, TokenView, ValueView};

verus! {

/// The ways a scan can fail. Each one ends the whole scan.
#[derive(Clone, Copy, Debug, PartialEq, Eq, Structural)]
pub enum ScanError {
    /// The input ended inside a `true`, `false` or `null` literal.
    PrematureEndOfInput,
    /// Inside a `true`, `false` or `null` literal, this character stood where
    /// another was expected.
    UnexpectedCharacter(char),
    /// The digits and dots of a number literal do not read as a number.
    UnparsableNumber,
}

/// One scan step: the token it emits (if any) and how many characters it
/// consumes, or the failure that ends the scan.
pub type StepResult = Result<(Option<TokenView>, nat), ScanError>;

/// The rest of the keyword that follows its leading character.
pub open spec fn keyword_rest(lead: char) -> Seq<char> {
    if lead == 't' {
        seq!['r', 'u', 'e']
    } else if lead == 'f' {
        seq!['a', 'l', 's', 'e']
    } else {
        seq!['u', 'l', 'l']
    }
}

/// Matching the characters `w` against the text `t`, one at a time: the
/// first mismatch, or the end of `t` before `w` is done, fails.
pub open spec fn match_word(t: Seq<char>, w: Seq<char>) -> Result<(), ScanError>
    decreases w.len(),
{
    if w.len() == 0 {
        Ok(())
    } else if t.len() == 0 {
        Err(ScanError::PrematureEndOfInput)
    } else if t[0] != w[0] {
        Err(ScanError::UnexpectedCharacter(t[0]))
    } else {
        match_word(t.drop_first(), w.drop_first())
    }
}

/// A character that a string literal takes in: single-byte, and not the
/// closing quote.
pub open spec fn is_string_char(c: char) -> bool {
    c < '\u{80}' && c != '"'
}

/// The length of the run of string characters at the start of `t`.
pub open spec fn string_run(t: Seq<char>) -> nat
    decreases t.len(),
{
    if t.len() > 0 && is_string_char(t[0]) {
        1 + string_run(t.drop_first())
    } else {
        0
    }
}

/// The length of the run of digits and dots at the start of `t`.
pub open spec fn number_run(t: Seq<char>) -> nat
    decreases t.len(),
{
    if t.len() > 0 && is_number_char(t[0]) {
        1 + number_run(t.drop_first())
    } else {
        0
    }
}

pub open spec fn plain(kind: TokenType) -> TokenView {
    TokenView { kind, value: None }
}

/// The structural token of a character, if it has one.
pub open spec fn structural_kind(c: char) -> Option<TokenType> {
    if c == '{' {
        Some(TokenType::LBRACE)
    } else if c == '}' {
        Some(TokenType::RBRACE)
    } else if c == '[' {
        Some(TokenType::LBRACKET)
    } else if c == ']' {
        Some(TokenType::RBRACKET)
    } else if c == ',' {
        Some(TokenType::COMMA)
    } else if c == ':' {
        Some(TokenType::COLON)
    } else {
        None
    }
}

/// A `true`, `false` or `null` literal, its leading character `lead` already
/// consumed and `t` the text after it. On success, one token and the
/// keyword's length in characters.
pub open spec fn keyword_step(lead: char, t: Seq<char>) -> StepResult {
    let w = keyword_rest(lead);
    match match_word(t, w) {
        Err(e) => Err(e),
        Ok(_) => {
            let tok = if lead == 'n' {
                plain(TokenType::NULL)
            } else {
                TokenView { kind: TokenType::BOOL, value: Some(ValueView::Bool(lead == 't')) }
            };
            Ok((Some(tok), w.len() + 1))
        },
    }
}

/// A string literal, its opening quote already consumed and `t` the text
/// after it. The string ends at the closing quote (taken in), before the
/// first character of more than one byte (left in place), or at the end of
/// the input; it never fails.
pub open spec fn string_step(t: Seq<char>) -> StepResult {
    let k = string_run(t);
    let closed = k < t.len() && t[k as int] == '"';
    let tok = TokenView { kind: TokenType::STRING, value: Some(ValueView::Str(t.take(k as int))) };
    Ok((Some(tok), if closed { k + 2 } else { k + 1 }))
}

/// A number literal, its leading `-` or digit `lead` already consumed and
/// `t` the text after it. All digits and dots that follow are taken in; the
/// whole text must then read as a number.
pub open spec fn number_step(lead: char, t: Seq<char>) -> StepResult {
    let k = number_run(t);
    let text = seq![lead] + t.take(k as int);
    if is_number_text(text) {
        Ok((Some(TokenView { kind: TokenType::NUMBER, value: Some(ValueView::Num(text)) }), k + 1))
    } else {
        Err(ScanError::UnparsableNumber)
    }
}

/// One step of the dispatch loop on a non-empty text `t`.
pub open spec fn step(t: Seq<char>) -> StepResult {
    let c = t[0];
    let rest = t.drop_first();
    if structural_kind(c) is Some {
        Ok((Some(plain(structural_kind(c)->0)), 1))
    } else if c == ' ' {
        Ok((Some(plain(TokenType::WHITESPACE)), 1))
    } else if c == 't' || c == 'f' || c == 'n' {
        keyword_step(c, rest)
    } else if c == '"' {
        string_step(rest)
    } else if c == '-' || is_digit(c) {
        number_step(c, rest)
    } else {
        Ok((None, 1))
    }
}

/// `toks` in front of the tokens of `r`, or the failure of `r`.
pub open spec fn prepend(toks: Seq<TokenView>, r: Result<Seq<TokenView>, ScanError>) -> Result<
    Seq<TokenView>,
    ScanError,
> {
    match r {
        Ok(rest) => Ok(toks + rest),
        Err(e) => Err(e),
    }
}

pub open spec fn opt_seq(t: Option<TokenView>) -> Seq<TokenView> {
    match t {
        Some(x) => seq![x],
        None => seq![],
    }
}

/// The token sequence of a whole input, or the first failure.
pub open spec fn lex(t: Seq<char>) -> Result<Seq<TokenView>, ScanError>
    decreases t.len(),
    via lex_decreases
{
    if t.len() == 0 {
        Ok(seq![])
    } else {
        match step(t) {
            Err(e) => Err(e),
            Ok((tok, n)) => prepend(opt_seq(tok), lex(t.skip(n as int))),
        }
    }
}

pub proof fn lemma_match_word_len(t: Seq<char>, w: Seq<char>)
    ensures
        match_word(t, w) is Ok ==> w.len() <= t.len(),
    decreases w.len(),
{
    if w.len() > 0 && t.len() > 0 && t[0] == w[0] {
        lemma_match_word_len(t.drop_first(), w.drop_first());
    }
}

pub proof fn lemma_string_run_len(t: Seq<char>)
    ensures
        string_run(t) <= t.len(),
        forall|i: int| 0 <= i < string_run(t) ==> is_string_char(#[trigger] t[i]),
        string_run(t) < t.len() ==> !is_string_char(t[string_run(t) as int]),
    decreases t.len(),
{
    if t.len() > 0 && is_string_char(t[0]) {
        lemma_string_run_len(t.drop_first());
        assert forall|i: int| 0 <= i < string_run(t) implies is_string_char(#[trigger] t[i]) by {
            if i > 0 {
                assert(t[i] == t.drop_first()[i - 1]);
            }
        }
    }
}

pub proof fn lemma_number_run_len(t: Seq<char>)
    ensures
        number_run(t) <= t.len(),
        forall|i: int| 0 <= i < number_run(t) ==> is_number_char(#[trigger] t[i]),
        number_run(t) < t.len() ==> !is_number_char(t[number_run(t) as int]),
    decreases t.len(),
{
    if t.len() > 0 && is_number_char(t[0]) {
        lemma_number_run_len(t.drop_first());
        assert forall|i: int| 0 <= i < number_run(t) implies is_number_char(#[trigger] t[i]) by {
            if i > 0 {
                assert(t[i] == t.drop_first()[i - 1]);
            }
        }
    }
}

/// Every successful step consumes at least one character and no more than
/// there are.
pub proof fn lemma_step_len(t: Seq<char>)
    requires
        t.len() > 0,
    ensures
        step(t) matches Ok((_, n)) ==> 1 <= n <= t.len(),
{
    let c = t[0];
    let rest = t.drop_first();
    if c == 't' || c == 'f' || c == 'n' {
        lemma_match_word_len(rest, keyword_rest(c));
    } else if c == '"' {
        lemma_string_run_len(rest);
    } else if c == '-' || is_digit(c) {
        lemma_number_run_len(rest);
    }
}

#[via_fn]
proof fn lex_decreases(t: Seq<char>) {
    if t.len() > 0 {
        lemma_step_len(t);
    }
}

} // verus!
