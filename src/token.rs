//! The token model: the closed set of lexical categories, the payload a
//! token may carry, and the mathematical view of both.

use vstd::prelude::*;
use crate::scan::chars_of;

verus! {

/// The lexical category of a token.
#[allow(non_camel_case_types, clippy::upper_case_acronyms)]
#[derive(Clone, Copy, Debug, PartialEq, Eq, Structural)]
pub enum TokenType {
    LBRACE,
    RBRACE,
    LBRACKET,
    RBRACKET,
    COLON,
    COMMA,
    WHITESPACE,
    STRING,
    NUMBER,
    BOOL,
    NULL,
}

/// The literal text of a number: an optional `-` followed by decimal digits
/// and at most one `.`, with at least one digit.
#[derive(Debug, PartialEq)]
pub struct Number {
    text: String,
}

/// The payload of a literal token.
#[allow(non_camel_case_types, clippy::upper_case_acronyms)]
#[derive(Clone, Debug, PartialEq)]
pub enum TokenValue {
    STRING(String),
    NUMBER(Number),
    BOOL(bool),
}

/// A token: its category and, for string, number and boolean tokens, its
/// payload.
#[derive(Clone, Debug, PartialEq)]
pub struct Token {
    pub t_type: TokenType,
    pub t_value: Option<TokenValue>,
}

/// The mathematical view of a payload.
pub enum ValueView {
    Str(Seq<char>),
    Num(Seq<char>),
    Bool(bool),
}

/// The mathematical view of a token.
pub struct TokenView {
    pub kind: TokenType,
    pub value: Option<ValueView>,
}

pub open spec fn is_digit(c: char) -> bool {
    '0' <= c && c <= '9'
}

/// A character that may continue a number literal.
pub open spec fn is_number_char(c: char) -> bool {
    is_digit(c) || c == '.'
}

/// How many times `c` occurs in `s`.
pub open spec fn count_char(s: Seq<char>, c: char) -> nat
    decreases s.len(),
{
    if s.len() == 0 {
        0
    } else {
        count_char(s.drop_last(), c) + if s.last() == c {
            1nat
        } else {
            0nat
        }
    }
}

/// Counting over a sequence with one more character in front.
pub proof fn lemma_count_char_prepend(c: char, s: Seq<char>, x: char)
    ensures
        count_char(seq![c] + s, x) == count_char(s, x) + if c == x {
            1nat
        } else {
            0nat
        },
    decreases s.len(),
{
    if s.len() == 0 {
        assert((seq![c] + s).drop_last() =~= s);
    } else {
        lemma_count_char_prepend(c, s.drop_last(), x);
        assert((seq![c] + s).drop_last() =~= seq![c] + s.drop_last());
    }
}

/// Counting over two sequences one after the other.
pub proof fn lemma_count_char_concat(a: Seq<char>, b: Seq<char>, x: char)
    ensures
        count_char(a + b, x) == count_char(a, x) + count_char(b, x),
    decreases b.len(),
{
    if b.len() == 0 {
        assert(a + b =~= a);
    } else {
        lemma_count_char_concat(a, b.drop_last(), x);
        assert((a + b).drop_last() =~= a + b.drop_last());
    }
}

/// A character that does not occur is counted zero times.
pub proof fn lemma_count_char_absent(s: Seq<char>, x: char)
    requires
        forall|i: int| 0 <= i < s.len() ==> s[i] != x,
    ensures
        count_char(s, x) == 0,
    decreases s.len(),
{
    if s.len() > 0 {
        assert forall|i: int| 0 <= i < s.drop_last().len() implies s.drop_last()[i] != x by {
            assert(s.drop_last()[i] == s[i]);
        }
        lemma_count_char_absent(s.drop_last(), x);
    }
}

/// A character occurs no more often than the sequence is long.
pub proof fn lemma_count_char_le_len(s: Seq<char>, x: char)
    ensures
        count_char(s, x) <= s.len(),
    decreases s.len(),
{
    if s.len() > 0 {
        lemma_count_char_le_len(s.drop_last(), x);
    }
}

/// Unsigned decimal text: digits and dots only, at most one dot, at least
/// one digit.
pub open spec fn is_decimal_text(s: Seq<char>) -> bool {
    &&& forall|i: int| 0 <= i < s.len() ==> is_number_char(#[trigger] s[i])
    &&& count_char(s, '.') <= 1
    &&& exists|i: int| 0 <= i < s.len() && is_digit(#[trigger] s[i])
}

/// Text that reads as a decimal number: unsigned decimal text, optionally
/// after a leading `-`.
pub open spec fn is_number_text(s: Seq<char>) -> bool {
    if s.len() > 0 && s[0] == '-' {
        is_decimal_text(s.drop_first())
    } else {
        is_decimal_text(s)
    }
}

/// Whether `cs` reads as a number.
fn number_text_ok(cs: &Vec<char>) -> (r: bool)
    ensures
        r == is_number_text(cs@),
{
    let b: usize = if cs.len() > 0 && cs[0] == '-' {
        1
    } else {
        0
    };
    let ghost body = cs@.subrange(b as int, cs.len() as int);
    proof {
        if b == 1 {
            assert(body =~= cs@.drop_first());
        } else {
            assert(body =~= cs@);
        }
        assert(cs@.subrange(b as int, b as int) =~= Seq::<char>::empty());
    }
    let mut i: usize = b;
    let mut dots: usize = 0;
    let mut seen_digit = false;
    while i < cs.len()
        invariant
            b <= i <= cs.len(),
            b <= 1,
            body == cs@.subrange(b as int, cs.len() as int),
            is_number_text(cs@) == is_decimal_text(body),
            forall|k: int| b <= k < i ==> is_number_char(#[trigger] cs@[k]),
            dots as nat == count_char(cs@.subrange(b as int, i as int), '.'),
            dots <= i - b,
            seen_digit == exists|k: int| b <= k < i && is_digit(#[trigger] cs@[k]),
        decreases cs.len() - i,
    {
        let c = cs[i];
        if !((c >= '0' && c <= '9') || c == '.') {
            assert(body[i - b] == c);
            return false;
        }
        assert(cs@.subrange(b as int, i + 1).drop_last() =~= cs@.subrange(b as int, i as int));
        if c == '.' {
            dots = dots + 1;
        } else {
            seen_digit = true;
        }
        i = i + 1;
    }
    proof {
        assert forall|k: int| 0 <= k < body.len() implies is_number_char(#[trigger] body[k]) by {
            assert(body[k] == cs@[k + b]);
        }
        if seen_digit {
            let k = choose|k: int| b <= k < i && is_digit(#[trigger] cs@[k]);
            assert(is_digit(body[k - b]));
        }
        if exists|k: int| 0 <= k < body.len() && is_digit(#[trigger] body[k]) {
            let k = choose|k: int| 0 <= k < body.len() && is_digit(#[trigger] body[k]);
            assert(is_digit(cs@[k + b]));
        }
    }
    dots <= 1 && seen_digit
}

/// Whether a payload of the given shape belongs with a token of kind `k`:
/// string, number and boolean tokens carry the matching payload, every other
/// kind carries none.
pub open spec fn payload_fits(k: TokenType, v: Option<TokenValue>) -> bool {
    match v {
        None => k != TokenType::STRING && k != TokenType::NUMBER && k != TokenType::BOOL,
        Some(TokenValue::STRING(_)) => k == TokenType::STRING,
        Some(TokenValue::NUMBER(_)) => k == TokenType::NUMBER,
        Some(TokenValue::BOOL(_)) => k == TokenType::BOOL,
    }
}

impl View for Number {
    type V = Seq<char>;

    closed spec fn view(&self) -> Seq<char> {
        self.text@
    }
}

impl Number {
    #[verifier::type_invariant]
    spec fn inv(&self) -> bool {
        is_number_text(self.text@)
    }

    /// Wraps text already known to read as a number.
    pub(crate) fn from_text(text: String) -> (r: Number)
        requires
            is_number_text(text@),
        ensures
            r@ == text@,
    {
        Number { text }
    }

    /// The number written as `s`, if `s` reads as a number.
    pub fn parse(s: &str) -> (r: Option<Number>)
        ensures
            r is Some <==> is_number_text(s@),
            r matches Some(n) ==> n@ == s@,
    {
        let cs = chars_of(s);
        if number_text_ok(&cs) {
            Some(Number { text: s.to_owned() })
        } else {
            None
        }
    }

    /// The literal text of the number, as it stood in the input.
    pub fn as_str(&self) -> (r: &str)
        ensures
            r@ == self@,
            is_number_text(r@),
    {
        proof {
            use_type_invariant(self);
        }
        self.text.as_str()
    }
}

impl Clone for Number {
    fn clone(&self) -> (r: Number)
        ensures
            r@ == self@,
    {
        proof {
            use_type_invariant(self);
        }
        Number { text: self.text.clone() }
    }
}

impl TokenValue {
    pub open spec fn view(&self) -> ValueView {
        match self {
            TokenValue::STRING(s) => ValueView::Str(s@),
            TokenValue::NUMBER(n) => ValueView::Num(n@),
            TokenValue::BOOL(b) => ValueView::Bool(*b),
        }
    }
}

impl Token {
    pub open spec fn view(&self) -> TokenView {
        TokenView {
            kind: self.t_type,
            value: match self.t_value {
                Some(v) => Some(v.view()),
                None => None,
            },
        }
    }

    /// Whether the payload is present exactly for string, number and boolean
    /// tokens, and matches the kind.
    pub open spec fn well_formed(&self) -> bool {
        payload_fits(self.t_type, self.t_value)
    }

    /// A token of kind `t_type` with payload `t_value`.
    pub fn new(t_type: TokenType, t_value: Option<TokenValue>) -> (r: Token)
        requires
            payload_fits(t_type, t_value),
        ensures
            r.t_type == t_type,
            r.t_value == t_value,
            r.well_formed(),
    {
        Token { t_type, t_value }
    }
}

/// The views of a sequence of tokens, in order.
pub open spec fn tokens_view(ts: Seq<Token>) -> Seq<TokenView> {
    ts.map_values(|t: Token| t.view())
}

} // verus!
