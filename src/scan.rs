//! The scanner: a cursor over the input's characters with one character of
//! lookahead, the dispatch loop, and the four literal recognizers.

use vstd::prelude::*;
use vstd::std_specs::iter::IteratorSpec;
use crate::grammar::{
    keyword_rest, keyword_step, lemma_number_run_len, lemma_step_len, lex, match_word,
    number_run, number_step, opt_seq, prepend, step, string_run, string_step, ScanError,
    StepResult,
};
use crate::token::{
    count_char, is_digit, is_number_char, is_number_text, lemma_count_char_le_len,
    lemma_count_char_prepend, tokens_view,
    Number, Token, TokenType, TokenValue, TokenView,
};

verus! {

broadcast use vstd::string::group_string_axioms;

/// Relies on `String::push`: the character is appended at the end.
#[verifier::external_body]
fn push_char(s: &mut String, c: char)
    ensures
        final(s)@ == old(s)@.push(c),
{
    s.push(c)
}

/// The characters of `s`, in order.
pub(crate) fn chars_of(s: &str) -> (r: Vec<char>)
    ensures
        r@ == s@,
{
    let mut it = s.chars();
    let mut v: Vec<char> = Vec::new();
    loop
        invariant
            v@ + it.remaining() == s@,
            it.obeys_prophetic_iter_laws(),
        decreases s@.len() - v@.len(),
    {
        let ghost before = it.remaining();
        match it.next() {
            Some(c) => {
                v.push(c);
                assert(v@ + it.remaining() =~= s@) by {
                    assert(before =~= seq![c] + it.remaining());
                }
            },
            None => {
                assert(v@ =~= s@);
                return v;
            },
        }
    }
}

/// What a recognizer returned, as a scan step that began one character
/// before `from` (at the literal's leading character) and ended at `to`.
pub open spec fn as_step(r: Result<Token, ScanError>, from: int, to: int) -> StepResult {
    match r {
        Ok(t) => Ok((Some(t.view()), (to - from + 1) as nat)),
        Err(e) => Err(e),
    }
}

/// What one pass of the dispatch loop returned, as a scan step that began at
/// `from` and ended at `to`.
pub open spec fn dispatch_step(r: Result<Option<Token>, ScanError>, from: int, to: int) -> StepResult {
    match r {
        Ok(Some(t)) => Ok((Some(t.view()), (to - from) as nat)),
        Ok(None) => Ok((None, (to - from) as nat)),
        Err(e) => Err(e),
    }
}

/// The tokens a scan returned, as views, or its failure.
pub open spec fn scan_view(r: Result<Vec<Token>, ScanError>) -> Result<Seq<TokenView>, ScanError> {
    match r {
        Ok(v) => Ok(tokens_view(v@)),
        Err(e) => Err(e),
    }
}

/// Taking one successful step moves its token from the unscanned text to the
/// tokens already emitted.
proof fn lemma_advance(input: Seq<char>, pos: int, done: Seq<TokenView>)
    requires
        0 <= pos < input.len(),
        step(input.skip(pos)) is Ok,
    ensures
        ({
            let (tok, n) = step(input.skip(pos))->Ok_0;
            &&& pos + n <= input.len()
            &&& prepend(done, lex(input.skip(pos))) == prepend(
                done + opt_seq(tok),
                lex(input.skip(pos + n)),
            )
        }),
{
    let t = input.skip(pos);
    let (tok, n) = step(t)->Ok_0;
    lemma_step_len(t);
    assert(t.skip(n as int) =~= input.skip(pos + n));
    match lex(input.skip(pos + n)) {
        Ok(rest) => {
            assert(done + (opt_seq(tok) + rest) =~= (done + opt_seq(tok)) + rest);
        },
        Err(_) => {},
    }
}

/// A scanner over one input text.
pub struct Scanner {
    chars: Vec<char>,
    pos: usize,
    current_char: char,
    line: usize,
}

impl Scanner {
    /// The input text.
    pub closed spec fn input(&self) -> Seq<char> {
        self.chars@
    }

    /// The number of newlines consumed so far.
    pub closed spec fn lines(&self) -> nat {
        self.line as nat
    }

    /// A scanner positioned at the start of `content`.
    pub fn new(content: &str) -> (r: Scanner)
        ensures
            r.input() == content@,
            r.lines() == 0,
    {
        Scanner { chars: chars_of(content), pos: 0, current_char: '\0', line: 0 }
    }

    /// The line counter: how many newlines the last scan consumed.
    pub fn line(&self) -> (r: usize)
        ensures
            r == self.lines(),
    {
        self.line
    }

    /// The cursor is within the input, and the line counter holds the
    /// number of newlines before it.
    spec fn wf(&self) -> bool {
        &&& self.pos <= self.chars.len()
        &&& self.line == count_char(self.chars@.take(self.pos as int), '\n')
    }

    fn increment_line(&mut self)
        requires
            old(self).line < usize::MAX,
        ensures
            final(self).line == old(self).line + 1,
            final(self).chars@ == old(self).chars@,
            final(self).pos == old(self).pos,
            final(self).current_char == old(self).current_char,
    {
        self.line += 1;
    }

    /// Consumes the next character and returns it, counting it if it is a
    /// newline.
    fn advance(&mut self) -> (c: char)
        requires
            old(self).wf(),
            old(self).pos < old(self).chars.len(),
        ensures
            final(self).wf(),
            final(self).chars@ == old(self).chars@,
            final(self).pos == old(self).pos + 1,
            final(self).current_char == old(self).current_char,
            c == old(self).chars@[old(self).pos as int],
    {
        let c = self.chars[self.pos];
        proof {
            let before = self.chars@.take(self.pos as int);
            assert(self.chars@.take(self.pos + 1).drop_last() =~= before);
            lemma_count_char_le_len(before, '\n');
        }
        if c == '\n' {
            self.increment_line();
        }
        self.pos = self.pos + 1;
        c
    }

    /// Consumes the characters of `w`, each of which must come next.
    fn expect_word(&mut self, w: &Vec<char>) -> (r: Result<(), ScanError>)
        requires
            old(self).wf(),
        ensures
            final(self).chars@ == old(self).chars@,
            final(self).wf(),
            final(self).current_char == old(self).current_char,
            r == match_word(old(self).chars@.skip(old(self).pos as int), w@),
            r is Ok ==> final(self).pos == old(self).pos + w.len(),
            old(self).pos <= final(self).pos <= final(self).chars.len(),
    {
        let ghost input = self.chars@;
        let ghost start = self.pos as int;
        let mut j: usize = 0;
        assert(w@.skip(0) =~= w@);
        while j < w.len()
            invariant
                self.chars@ == input,
                input == old(self).chars@,
                start == old(self).pos,
                self.wf(),
                self.current_char == old(self).current_char,
                start <= self.pos <= input.len(),
                j <= w.len(),
                self.pos == start + j,
                match_word(input.skip(start), w@) == match_word(input.skip(self.pos as int), w@.skip(j as int)),
            decreases w.len() - j,
        {
            let ghost t = input.skip(self.pos as int);
            let ghost rest_w = w@.skip(j as int);
            assert(rest_w.len() > 0 && rest_w[0] == w@[j as int]);
            if self.pos >= self.chars.len() {
                assert(t.len() == 0);
                assert(match_word(t, rest_w) == Err::<(), ScanError>(ScanError::PrematureEndOfInput));
                return Err(ScanError::PrematureEndOfInput);
            }
            let next = self.chars[self.pos];
            assert(t[0] == next);
            if next != w[j] {
                return Err(ScanError::UnexpectedCharacter(next));
            }
            assert(t.drop_first() =~= input.skip(self.pos + 1));
            assert(rest_w.drop_first() =~= w@.skip(j + 1));
            self.advance();
            j = j + 1;
        }
        assert(w@.skip(j as int).len() == 0);
        Ok(())
    }

    /// Recognizes the rest of `true` or `false`, its leading character just
    /// consumed.
    fn get_bool(&mut self) -> (r: Result<Token, ScanError>)
        requires
            old(self).wf(),
            1 <= old(self).pos,
            old(self).current_char == 't' || old(self).current_char == 'f',
        ensures
            final(self).chars@ == old(self).chars@,
            final(self).wf(),
            old(self).pos <= final(self).pos <= final(self).chars.len(),
            as_step(r, old(self).pos as int, final(self).pos as int) == keyword_step(
                old(self).current_char,
                old(self).chars@.skip(old(self).pos as int),
            ),
            r matches Ok(t) ==> t.well_formed(),
    {
        let selected_bool = self.current_char == 't';
        let selected: Vec<char> = if selected_bool {
            vec!['r', 'u', 'e']
        } else {
            vec!['a', 'l', 's', 'e']
        };
        assert(selected@ =~= keyword_rest(self.current_char));
        match self.expect_word(&selected) {
            Ok(()) => Ok(Token::new(TokenType::BOOL, Some(TokenValue::BOOL(selected_bool)))),
            Err(e) => Err(e),
        }
    }

    /// Recognizes the rest of `null`, its leading `n` just consumed.
    fn get_null(&mut self) -> (r: Result<Token, ScanError>)
        requires
            old(self).wf(),
            1 <= old(self).pos,
            old(self).current_char == 'n',
        ensures
            final(self).chars@ == old(self).chars@,
            final(self).wf(),
            old(self).pos <= final(self).pos <= final(self).chars.len(),
            as_step(r, old(self).pos as int, final(self).pos as int) == keyword_step(
                old(self).current_char,
                old(self).chars@.skip(old(self).pos as int),
            ),
            r matches Ok(t) ==> t.well_formed(),
    {
        let remaining_null: Vec<char> = vec!['u', 'l', 'l'];
        assert(remaining_null@ =~= keyword_rest(self.current_char));
        match self.expect_word(&remaining_null) {
            Ok(()) => Ok(Token::new(TokenType::NULL, None)),
            Err(e) => Err(e),
        }
    }

    /// Recognizes a string literal, its opening quote just consumed.
    fn get_string(&mut self) -> (r: Token)
        requires
            old(self).wf(),
            1 <= old(self).pos,
        ensures
            final(self).chars@ == old(self).chars@,
            final(self).wf(),
            old(self).pos <= final(self).pos <= final(self).chars.len(),
            as_step(Ok(r), old(self).pos as int, final(self).pos as int) == string_step(
                old(self).chars@.skip(old(self).pos as int),
            ),
            r.well_formed(),
    {
        let ghost input = self.chars@;
        let ghost start = self.pos as int;
        let mut string = String::new();
        while self.pos < self.chars.len() && self.chars[self.pos] < '\u{80}'
            && self.chars[self.pos] != '"'
            invariant
                self.chars@ == input,
                input == old(self).chars@,
                start == old(self).pos,
                self.wf(),
                start <= self.pos <= input.len(),
                string@ == input.subrange(start, self.pos as int),
                string_run(input.skip(start)) == (self.pos - start) + string_run(
                    input.skip(self.pos as int),
                ),
            decreases input.len() - self.pos,
        {
            let next = self.chars[self.pos];
            proof {
                let t = input.skip(self.pos as int);
                assert(t[0] == next);
                assert(t.drop_first() =~= input.skip(self.pos + 1));
            }
            let ghost before = string@;
            push_char(&mut string, next);
            assert(string@ == before.push(next));
            assert(string@ =~= input.subrange(start, self.pos + 1));
            self.advance();
        }
        let ghost k = self.pos - start;
        proof {
            let t = input.skip(self.pos as int);
            if self.pos < input.len() {
                assert(t[0] == input[self.pos as int]);
            }
            assert(string_run(t) == 0);
            assert(input.skip(start).take(k) =~= string@);
        }
        if self.pos < self.chars.len() && self.chars[self.pos] == '"' {
            assert(input.skip(start)[k] == input[self.pos as int]);
            self.advance();
        } else {
            proof {
                if self.pos < input.len() {
                    assert(input.skip(start)[k] == input[self.pos as int]);
                }
            }
        }
        Token::new(TokenType::STRING, Some(TokenValue::STRING(string)))
    }

    /// Recognizes a number literal, its leading `-` or digit just consumed.
    fn get_digit(&mut self) -> (r: Result<Token, ScanError>)
        requires
            old(self).wf(),
            1 <= old(self).pos,
            old(self).current_char == '-' || is_digit(old(self).current_char),
        ensures
            final(self).chars@ == old(self).chars@,
            final(self).wf(),
            old(self).pos <= final(self).pos <= final(self).chars.len(),
            as_step(r, old(self).pos as int, final(self).pos as int) == number_step(
                old(self).current_char,
                old(self).chars@.skip(old(self).pos as int),
            ),
            r matches Ok(t) ==> t.well_formed(),
    {
        let ghost input = self.chars@;
        let ghost start = self.pos as int;
        let lead = self.current_char;
        let mut digit = String::new();
        push_char(&mut digit, lead);
        let mut dots: usize = 0;
        let mut seen_digit: bool = lead != '-';
        assert(input.subrange(start, start) =~= Seq::<char>::empty());
        assert(digit@ =~= seq![lead] + input.subrange(start, start));
        while self.pos < self.chars.len() && ((self.chars[self.pos] >= '0'
            && self.chars[self.pos] <= '9') || self.chars[self.pos] == '.')
            invariant
                self.chars@ == input,
                input == old(self).chars@,
                start == old(self).pos,
                self.wf(),
                lead == old(self).current_char,
                lead == '-' || is_digit(lead),
                start <= self.pos <= input.len(),
                digit@ == seq![lead] + input.subrange(start, self.pos as int),
                number_run(input.skip(start)) == (self.pos - start) + number_run(
                    input.skip(self.pos as int),
                ),
                dots as nat == count_char(input.subrange(start, self.pos as int), '.'),
                dots <= self.pos - start,
                seen_digit == (is_digit(lead) || exists|i: int|
                    start <= i < self.pos && is_digit(#[trigger] input[i])),
            decreases input.len() - self.pos,
        {
            let next = self.chars[self.pos];
            proof {
                let t = input.skip(self.pos as int);
                assert(t[0] == next);
                assert(t.drop_first() =~= input.skip(self.pos + 1));
                assert(input.subrange(start, self.pos + 1).drop_last() =~= input.subrange(
                    start,
                    self.pos as int,
                ));
            }
            let ghost before = digit@;
            push_char(&mut digit, next);
            assert(digit@ =~= seq![lead] + input.subrange(start, self.pos + 1));
            if next == '.' {
                dots = dots + 1;
            } else {
                seen_digit = true;
            }
            self.advance();
        }
        let ghost k = self.pos - start;
        let ghost run = input.subrange(start, self.pos as int);
        let ghost text = seq![lead] + run;
        proof {
            let t = input.skip(self.pos as int);
            if self.pos < input.len() {
                assert(t[0] == input[self.pos as int]);
            }
            assert(number_run(t) == 0);
            assert(input.skip(start).take(k) =~= run);
            lemma_number_run_len(input.skip(start));
            assert forall|i: int| 0 <= i < run.len() implies is_number_char(#[trigger] run[i]) by {
                assert(run[i] == input.skip(start)[i]);
            }
            if lead == '-' {
                assert(text.drop_first() =~= run);
                if seen_digit {
                    let i = choose|i: int| start <= i < self.pos && is_digit(#[trigger] input[i]);
                    assert(is_digit(run[i - start]));
                }
                if exists|i: int| 0 <= i < run.len() && is_digit(#[trigger] run[i]) {
                    let i = choose|i: int| 0 <= i < run.len() && is_digit(#[trigger] run[i]);
                    assert(is_digit(input[start + i]));
                }
                assert(is_number_text(text) == (dots <= 1 && seen_digit));
            } else {
                lemma_count_char_prepend(lead, run, '.');
                assert(is_digit(text[0]));
                assert forall|i: int| 0 <= i < text.len() implies is_number_char(#[trigger] text[i]) by {
                    if i > 0 {
                        assert(text[i] == run[i - 1]);
                    }
                }
                assert(is_number_text(text) == (dots <= 1));
            }
        }
        if dots <= 1 && seen_digit {
            let n = Number::from_text(digit);
            Ok(Token::new(TokenType::NUMBER, Some(TokenValue::NUMBER(n))))
        } else {
            Err(ScanError::UnparsableNumber)
        }
    }

    /// One pass of the dispatch loop: consumes the next character and, for a
    /// literal, the rest of it.
    fn dispatch(&mut self) -> (r: Result<Option<Token>, ScanError>)
        requires
            old(self).wf(),
            old(self).pos < old(self).chars.len(),
        ensures
            final(self).wf(),
            final(self).chars@ == old(self).chars@,
            old(self).pos < final(self).pos <= final(self).chars.len(),
            dispatch_step(r, old(self).pos as int, final(self).pos as int) == step(
                old(self).chars@.skip(old(self).pos as int),
            ),
            r matches Ok(Some(t)) ==> t.well_formed(),
    {
        let ghost t = self.chars@.skip(self.pos as int);
        let c = self.advance();
        self.current_char = c;
        assert(t[0] == c);
        assert(t.drop_first() =~= self.chars@.skip(self.pos as int));
        if c == '{' {
            Ok(Some(Token::new(TokenType::LBRACE, None)))
        } else if c == '}' {
            Ok(Some(Token::new(TokenType::RBRACE, None)))
        } else if c == '[' {
            Ok(Some(Token::new(TokenType::LBRACKET, None)))
        } else if c == ']' {
            Ok(Some(Token::new(TokenType::RBRACKET, None)))
        } else if c == ',' {
            Ok(Some(Token::new(TokenType::COMMA, None)))
        } else if c == ':' {
            Ok(Some(Token::new(TokenType::COLON, None)))
        } else if c == ' ' {
            Ok(Some(Token::new(TokenType::WHITESPACE, None)))
        } else if c == 't' || c == 'f' {
            match self.get_bool() {
                Ok(tok) => Ok(Some(tok)),
                Err(e) => Err(e),
            }
        } else if c == 'n' {
            match self.get_null() {
                Ok(tok) => Ok(Some(tok)),
                Err(e) => Err(e),
            }
        } else if c == '"' {
            Ok(Some(self.get_string()))
        } else if c == '-' || (c >= '0' && c <= '9') {
            match self.get_digit() {
                Ok(tok) => Ok(Some(tok)),
                Err(e) => Err(e),
            }
        } else {
            // Tab, carriage return, newline and any other character: consumed,
            // no token.
            Ok(None)
        }
    }

    /// Scans the whole input from its start: the ordered tokens, or the first
    /// failure, in which case no token is returned.
    pub fn scan(&mut self) -> (r: Result<Vec<Token>, ScanError>)
        ensures
            final(self).input() == old(self).input(),
            scan_view(r) == lex(old(self).input()),
            r is Ok ==> final(self).lines() == count_char(old(self).input(), '\n'),
            r matches Ok(v) ==> forall|i: int| 0 <= i < v.len() ==> (#[trigger] v[i]).well_formed(),
    {
        let ghost input = self.chars@;
        self.pos = 0;
        self.line = 0;
        let mut tokens: Vec<Token> = Vec::new();
        assert(input.take(0) =~= Seq::<char>::empty());
        assert(input.skip(0) =~= input);
        assert(tokens_view(tokens@) =~= Seq::<TokenView>::empty());
        assert(lex(input) == prepend(tokens_view(tokens@), lex(input)));
        while self.pos < self.chars.len()
            invariant
                self.chars@ == input,
                input == old(self).chars@,
                self.wf(),
                lex(input) == prepend(tokens_view(tokens@), lex(input.skip(self.pos as int))),
                forall|i: int| 0 <= i < tokens.len() ==> (#[trigger] tokens[i]).well_formed(),
            decreases input.len() - self.pos,
        {
            let ghost pos0 = self.pos as int;
            let ghost done = tokens_view(tokens@);
            let out = self.dispatch();
            match out {
                Err(e) => {
                    assert(lex(input.skip(pos0)) == Err::<Seq<TokenView>, ScanError>(e));
                    return Err(e);
                },
                Ok(o) => {
                    proof {
                        lemma_advance(input, pos0, done);
                    }
                    match o {
                        Some(tok) => {
                            tokens.push(tok);
                            assert(tokens_view(tokens@) =~= done + opt_seq(Some(tokens@.last().view())));
                        },
                        None => {
                            assert(done + opt_seq(None) =~= done);
                        },
                    }
                },
            }
        }
        assert(input.skip(self.pos as int).len() == 0);
        assert(input.take(self.pos as int) =~= input);
        assert(tokens_view(tokens@) + Seq::<TokenView>::empty() =~= tokens_view(tokens@));
        Ok(tokens)
    }
}

} // verus!
