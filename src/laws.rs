//! General facts about scanning, proved over the model that `Scanner::scan`
//! is verified against.

use vstd::prelude::*;
use crate::grammar::{
    is_string_char, keyword_rest, lemma_match_word_len, lemma_number_run_len, lemma_step_len,
    lemma_string_run_len, lex, match_word, number_run, opt_seq, plain, prepend, step,
    string_run, structural_kind,
};
use crate::token::{
    count_char, lemma_count_char_absent, lemma_count_char_concat, lemma_count_char_prepend,
    is_decimal_text, is_digit, is_number_char, is_number_text, TokenType, TokenView, ValueView};

verus! {

/// One lexical unit of an input: a structural character, a space, a
/// character that produces no token (tab, carriage return, newline), or a
/// complete literal.
pub enum Unit {
    Punct(char),
    Space,
    Skipped(char),
    Bool(bool),
    Null,
    /// A string literal with the given contents (quotes not included).
    Str(Seq<char>),
    /// A number literal with the given text.
    Num(Seq<char>),
}

/// A unit that is valid on its own.
pub open spec fn unit_ok(u: Unit) -> bool {
    match u {
        Unit::Punct(c) => structural_kind(c) is Some,
        Unit::Space => true,
        Unit::Skipped(c) => c == '\t' || c == '\r' || c == '\n',
        Unit::Bool(_) => true,
        Unit::Null => true,
        Unit::Str(s) => forall|i: int| 0 <= i < s.len() ==> is_string_char(#[trigger] s[i]),
        Unit::Num(s) => s.len() > 0 && (s[0] == '-' || is_digit(s[0])) && is_number_text(s),
    }
}

/// The characters a unit is written with.
pub open spec fn unit_text(u: Unit) -> Seq<char> {
    match u {
        Unit::Punct(c) => seq![c],
        Unit::Space => seq![' '],
        Unit::Skipped(c) => seq![c],
        Unit::Bool(b) => if b {
            seq!['t', 'r', 'u', 'e']
        } else {
            seq!['f', 'a', 'l', 's', 'e']
        },
        Unit::Null => seq!['n', 'u', 'l', 'l'],
        Unit::Str(s) => seq!['"'] + s + seq!['"'],
        Unit::Num(s) => s,
    }
}

/// The token a unit stands for, if any.
pub open spec fn unit_token(u: Unit) -> Option<TokenView> {
    match u {
        Unit::Punct(c) => Some(plain(structural_kind(c)->0)),
        Unit::Space => Some(plain(TokenType::WHITESPACE)),
        Unit::Skipped(_) => None,
        Unit::Bool(b) => Some(TokenView { kind: TokenType::BOOL, value: Some(ValueView::Bool(b)) }),
        Unit::Null => Some(plain(TokenType::NULL)),
        Unit::Str(s) => Some(TokenView { kind: TokenType::STRING, value: Some(ValueView::Str(s)) }),
        Unit::Num(s) => Some(TokenView { kind: TokenType::NUMBER, value: Some(ValueView::Num(s)) }),
    }
}

/// The units written one after another.
pub open spec fn render(us: Seq<Unit>) -> Seq<char>
    decreases us.len(),
{
    if us.len() == 0 {
        seq![]
    } else {
        unit_text(us[0]) + render(us.drop_first())
    }
}

/// The tokens of the units, in order.
pub open spec fn unit_tokens(us: Seq<Unit>) -> Seq<TokenView>
    decreases us.len(),
{
    if us.len() == 0 {
        seq![]
    } else {
        opt_seq(unit_token(us[0])) + unit_tokens(us.drop_first())
    }
}

/// No number is written directly before a number that starts with a digit
/// (the two would read as one number).
pub open spec fn numbers_apart(us: Seq<Unit>) -> bool {
    forall|i: int|
        0 <= i < us.len() - 1 && (#[trigger] us[i]) is Num ==> !(us[i + 1] matches Unit::Num(
            s,
        ) && is_digit(s[0]))
}

proof fn lemma_match_word_prefix(w: Seq<char>, r: Seq<char>)
    ensures
        match_word(w + r, w) == Ok::<(), crate::grammar::ScanError>(()),
    decreases w.len(),
{
    if w.len() > 0 {
        assert((w + r).drop_first() =~= w.drop_first() + r);
        lemma_match_word_prefix(w.drop_first(), r);
    }
}

proof fn lemma_string_run_prefix(a: Seq<char>, r: Seq<char>)
    requires
        forall|i: int| 0 <= i < a.len() ==> is_string_char(#[trigger] a[i]),
    ensures
        string_run(a + r) == a.len() + string_run(r),
    decreases a.len(),
{
    if a.len() > 0 {
        assert((a + r).drop_first() =~= a.drop_first() + r);
        assert(is_string_char(a[0]));
        assert forall|i: int| 0 <= i < a.drop_first().len() implies is_string_char(
            #[trigger] a.drop_first()[i],
        ) by {
            assert(a.drop_first()[i] == a[i + 1]);
        }
        lemma_string_run_prefix(a.drop_first(), r);
    } else {
        assert(a + r =~= r);
    }
}

proof fn lemma_number_run_prefix(a: Seq<char>, r: Seq<char>)
    requires
        forall|i: int| 0 <= i < a.len() ==> is_number_char(#[trigger] a[i]),
    ensures
        number_run(a + r) == a.len() + number_run(r),
    decreases a.len(),
{
    if a.len() > 0 {
        assert((a + r).drop_first() =~= a.drop_first() + r);
        assert(is_number_char(a[0]));
        assert forall|i: int| 0 <= i < a.drop_first().len() implies is_number_char(
            #[trigger] a.drop_first()[i],
        ) by {
            assert(a.drop_first()[i] == a[i + 1]);
        }
        lemma_number_run_prefix(a.drop_first(), r);
    } else {
        assert(a + r =~= r);
    }
}

/// Every character after the first of number text continues the number.
proof fn lemma_number_text_tail(s: Seq<char>)
    requires
        s.len() > 0,
        s[0] == '-' || is_digit(s[0]),
        is_number_text(s),
    ensures
        forall|i: int| 0 <= i < s.drop_first().len() ==> is_number_char(#[trigger] s.drop_first()[i]),
{
    if s[0] != '-' {
        assert forall|i: int| 0 <= i < s.drop_first().len() implies is_number_char(
            #[trigger] s.drop_first()[i],
        ) by {
            assert(s.drop_first()[i] == s[i + 1]);
        }
    }
}

/// A number literal followed by text that does not continue it is read as
/// exactly that literal.
proof fn lemma_number_step(s: Seq<char>, r: Seq<char>)
    requires
        s.len() > 0,
        s[0] == '-' || is_digit(s[0]),
        is_number_text(s),
        r.len() > 0 ==> !is_number_char(r[0]),
    ensures
        step(s + r) == Ok::<(Option<TokenView>, nat), crate::grammar::ScanError>(
            (Some(TokenView { kind: TokenType::NUMBER, value: Some(ValueView::Num(s)) }), s.len()),
        ),
{
    let t = s + r;
    let rest = t.drop_first();
    assert(rest =~= s.drop_first() + r);
    assert(t[0] == s[0]);
    lemma_number_text_tail(s);
    lemma_number_run_prefix(s.drop_first(), r);
    assert(number_run(r) == 0);
    assert(seq![s[0]] + rest.take(s.len() - 1) =~= s);
}

/// A valid unit followed by text that does not run into it is read in one
/// step, as its own token.
proof fn lemma_unit_step(u: Unit, r: Seq<char>)
    requires
        unit_ok(u),
        u is Num && r.len() > 0 ==> !is_number_char(r[0]),
    ensures
        step(unit_text(u) + r) == Ok::<(Option<TokenView>, nat), crate::grammar::ScanError>(
            (unit_token(u), unit_text(u).len()),
        ),
{
    let t = unit_text(u) + r;
    let rest = t.drop_first();
    match u {
        Unit::Punct(c) => {
            assert(t[0] == c);
        },
        Unit::Space => {
            assert(t[0] == ' ');
        },
        Unit::Skipped(c) => {
            assert(t[0] == c);
        },
        Unit::Bool(b) => {
            assert(t[0] == unit_text(u)[0]);
            let lead = if b {
                't'
            } else {
                'f'
            };
            assert(rest =~= keyword_rest(lead) + r);
            lemma_match_word_prefix(keyword_rest(lead), r);
        },
        Unit::Null => {
            assert(t[0] == 'n');
            assert(rest =~= keyword_rest('n') + r);
            lemma_match_word_prefix(keyword_rest('n'), r);
        },
        Unit::Str(s) => {
            assert(t[0] == '"');
            assert(rest =~= s + (seq!['"'] + r));
            lemma_string_run_prefix(s, seq!['"'] + r);
            assert((seq!['"'] + r)[0] == '"');
            assert(string_run(seq!['"'] + r) == 0);
            assert(rest[s.len() as int] == '"');
            assert(rest.take(s.len() as int) =~= s);
        },
        Unit::Num(s) => {
            lemma_number_step(s, r);
        },
    }
}

proof fn lemma_render_first(us: Seq<Unit>)
    requires
        us.len() > 0,
        unit_ok(us[0]),
    ensures
        unit_text(us[0]).len() > 0,
        render(us).len() > 0,
        render(us)[0] == unit_text(us[0])[0],
{
}

/// Valid literals, structural characters, spaces and skipped characters,
/// written one after another (with no number running into a following
/// number), scan to exactly one token per unit that has one, in the order
/// written: nothing merged, nothing dropped, and only tab, carriage return
/// and newline left without a token.
pub proof fn units_scan_in_order(us: Seq<Unit>)
    requires
        forall|i: int| 0 <= i < us.len() ==> unit_ok(#[trigger] us[i]),
        numbers_apart(us),
    ensures
        lex(render(us)) == Ok::<Seq<TokenView>, crate::grammar::ScanError>(unit_tokens(us)),
    decreases us.len(),
{
    if us.len() == 0 {
        return;
    }
    let u = us[0];
    let rest = us.drop_first();
    assert forall|i: int| 0 <= i < rest.len() implies unit_ok(#[trigger] rest[i]) by {
        assert(rest[i] == us[i + 1]);
    }
    assert forall|i: int| 0 <= i < rest.len() - 1 && (#[trigger] rest[i]) is Num implies !(
    rest[i + 1] matches Unit::Num(s) && is_digit(s[0])) by {
        assert(rest[i] == us[i + 1]);
        assert(rest[i + 1] == us[i + 2]);
    }
    units_scan_in_order(rest);
    let r = render(rest);
    assert(unit_ok(us[0]));
    if rest.len() > 0 {
        assert(unit_ok(rest[0]));
        lemma_render_first(rest);
        assert(rest[0] == us[1]);
        if u is Num {
            assert(us[0] is Num);
            match rest[0] {
                Unit::Num(s) => {
                    assert(!is_digit(s[0]));
                },
                Unit::Bool(b) => {
                    assert(unit_text(rest[0])[0] == if b {
                        't'
                    } else {
                        'f'
                    });
                },
                _ => {},
            }
        }
    }
    lemma_unit_step(u, r);
    let t = render(us);
    assert(t == unit_text(u) + r);
    lemma_render_first(us);
    assert(t.skip(unit_text(u).len() as int) =~= r);
}

/// The units without the skipped ones (tab, carriage return, newline).
pub open spec fn drop_skipped(us: Seq<Unit>) -> Seq<Unit>
    decreases us.len(),
{
    if us.len() == 0 {
        seq![]
    } else if us[0] is Skipped {
        drop_skipped(us.drop_first())
    } else {
        seq![us[0]] + drop_skipped(us.drop_first())
    }
}

proof fn lemma_drop_skipped(us: Seq<Unit>)
    ensures
        unit_tokens(drop_skipped(us)) == unit_tokens(us),
        (forall|i: int| 0 <= i < us.len() ==> unit_ok(#[trigger] us[i])) ==> (forall|i: int|
            0 <= i < drop_skipped(us).len() ==> unit_ok(#[trigger] drop_skipped(us)[i])),
    decreases us.len(),
{
    if us.len() > 0 {
        let rest = us.drop_first();
        lemma_drop_skipped(rest);
        if forall|i: int| 0 <= i < us.len() ==> unit_ok(#[trigger] us[i]) {
            assert forall|i: int| 0 <= i < rest.len() implies unit_ok(#[trigger] rest[i]) by {
                assert(rest[i] == us[i + 1]);
            }
            assert(unit_ok(us[0]));
        }
        if us[0] !is Skipped {
            let f = seq![us[0]] + drop_skipped(rest);
            assert(f[0] == us[0]);
            assert(f.drop_first() =~= drop_skipped(rest));
            if forall|i: int| 0 <= i < us.len() ==> unit_ok(#[trigger] us[i]) {
                assert forall|i: int| 0 <= i < f.len() implies unit_ok(#[trigger] f[i]) by {
                    if i > 0 {
                        assert(f[i] == drop_skipped(rest)[i - 1]);
                    }
                }
            }
        }
    }
}

/// Tab, carriage return and newline written between units change nothing:
/// the input scans to the same tokens as it does without them.
pub proof fn skipped_characters_change_nothing(us: Seq<Unit>)
    requires
        forall|i: int| 0 <= i < us.len() ==> unit_ok(#[trigger] us[i]),
        numbers_apart(us),
        numbers_apart(drop_skipped(us)),
    ensures
        lex(render(us)) == lex(render(drop_skipped(us))),
{
    lemma_drop_skipped(us);
    units_scan_in_order(us);
    units_scan_in_order(drop_skipped(us));
}

/// Scanning is a function of the input alone: equal inputs give equal token
/// sequences, or the same failure.
pub proof fn scan_is_deterministic(a: Seq<char>, b: Seq<char>)
    requires
        a == b,
    ensures
        lex(a) == lex(b),
{
}

/// Unsigned decimal text that starts with a digit scans to a single number
/// token that holds exactly that text, and so has its value.
pub proof fn decimal_text_scans_to_itself(s: Seq<char>)
    requires
        is_decimal_text(s),
        s.len() > 0,
        is_digit(s[0]),
    ensures
        lex(s) == Ok::<Seq<TokenView>, crate::grammar::ScanError>(
            seq![TokenView { kind: TokenType::NUMBER, value: Some(ValueView::Num(s)) }],
        ),
{
    lemma_number_step(s, seq![]);
    assert(s + seq![] =~= s);
    assert(s.skip(s.len() as int) =~= Seq::<char>::empty());
    assert(lex(s.skip(s.len() as int)) == Ok::<Seq<TokenView>, crate::grammar::ScanError>(seq![]));
    assert(step(s) == Ok::<(Option<TokenView>, nat), crate::grammar::ScanError>(
        (Some(TokenView { kind: TokenType::NUMBER, value: Some(ValueView::Num(s)) }), s.len()),
    ));
    assert(seq![TokenView { kind: TokenType::NUMBER, value: Some(ValueView::Num(s)) }] + seq![] =~= seq![TokenView { kind: TokenType::NUMBER, value: Some(ValueView::Num(s)) }]);
}

/// A space met between tokens produces exactly one whitespace token and
/// consumes exactly itself.
pub proof fn space_is_one_whitespace_token(t: Seq<char>)
    ensures
        lex(seq![' '] + t) == prepend(seq![plain(TokenType::WHITESPACE)], lex(t)),
{
    let s = seq![' '] + t;
    assert(s[0] == ' ');
    assert(s.skip(1) =~= t);
}

/// How many whitespace tokens there are.
pub open spec fn whitespace_tokens(ts: Seq<TokenView>) -> nat
    decreases ts.len(),
{
    if ts.len() == 0 {
        0
    } else {
        (if ts[0].kind == TokenType::WHITESPACE {
            1nat
        } else {
            0nat
        }) + whitespace_tokens(ts.drop_first())
    }
}

/// How many spaces the string payloads hold.
pub open spec fn payload_spaces(ts: Seq<TokenView>) -> nat
    decreases ts.len(),
{
    if ts.len() == 0 {
        0
    } else {
        (match ts[0].value {
            Some(ValueView::Str(p)) => count_char(p, ' '),
            _ => 0,
        }) + payload_spaces(ts.drop_first())
    }
}

proof fn lemma_match_word_take(t: Seq<char>, w: Seq<char>)
    requires
        match_word(t, w) is Ok,
    ensures
        w.len() <= t.len(),
        t.take(w.len() as int) =~= w,
    decreases w.len(),
{
    lemma_match_word_len(t, w);
    if w.len() > 0 {
        lemma_match_word_take(t.drop_first(), w.drop_first());
        assert forall|i: int| 0 <= i < w.len() implies t.take(w.len() as int)[i] == w[i] by {
            if i > 0 {
                assert(t.drop_first().take(w.len() - 1)[i - 1] == t[i]);
            }
        }
    }
}

/// The spaces among the characters one step consumes are those its token
/// accounts for.
proof fn lemma_step_spaces(t: Seq<char>)
    requires
        t.len() > 0,
        step(t) is Ok,
    ensures
        ({
            let (tok, n) = step(t)->Ok_0;
            count_char(t.take(n as int), ' ') == whitespace_tokens(opt_seq(tok)) + payload_spaces(
                opt_seq(tok),
            )
        }),
{
    let (tok, n) = step(t)->Ok_0;
    lemma_step_len(t);
    let c = t[0];
    let rest = t.drop_first();
    let head = t.take(n as int);
    assert(head =~= seq![c] + rest.take(n - 1));
    lemma_count_char_prepend(c, rest.take(n - 1), ' ');
    let empty = Seq::<TokenView>::empty();
    assert(whitespace_tokens(empty) == 0);
    assert(payload_spaces(empty) == 0);
    assert(count_char(Seq::<char>::empty(), ' ') == 0);
    if let Some(x) = tok {
        let one = opt_seq(tok);
        assert(one.drop_first() =~= empty);
        assert(one[0] == x);
        assert(whitespace_tokens(one) == if x.kind == TokenType::WHITESPACE {
            1nat
        } else {
            0nat
        });
        assert(payload_spaces(one) == match x.value {
            Some(ValueView::Str(p)) => count_char(p, ' '),
            _ => 0,
        });
    } else {
        assert(opt_seq(tok) =~= empty);
    }
    if c == 't' || c == 'f' || c == 'n' {
        let w = keyword_rest(c);
        lemma_match_word_take(rest, w);
        lemma_count_char_absent(w, ' ');
    } else if c == '"' {
        let k = string_run(rest);
        lemma_string_run_len(rest);
        if n == k + 2 {
            assert(rest.take(n - 1) =~= rest.take(k as int) + seq![rest[k as int]]);
            lemma_count_char_concat(rest.take(k as int), seq![rest[k as int]], ' ');
            lemma_count_char_absent(seq![rest[k as int]], ' ');
        }
    } else if c == '-' || is_digit(c) {
        lemma_number_run_len(rest);
        let digits = rest.take(n - 1);
        assert forall|i: int| 0 <= i < digits.len() implies #[trigger] digits[i] != ' ' by {
            assert(is_number_char(rest[i]));
        }
        lemma_count_char_absent(digits, ' ');
    } else {
        assert(rest.take(0) =~= Seq::<char>::empty());
    }
}

/// Every space of an input that scans without failure is accounted for
/// exactly once: either as its own whitespace token, or inside the payload
/// of a string. So the whitespace tokens are exactly as many as the spaces
/// outside string literals.
pub proof fn spaces_become_whitespace_tokens(s: Seq<char>)
    requires
        lex(s) is Ok,
    ensures
        whitespace_tokens(lex(s)->Ok_0) + payload_spaces(lex(s)->Ok_0) == count_char(s, ' '),
    decreases s.len(),
{
    if s.len() == 0 {
        assert(s =~= Seq::<char>::empty());
        return;
    }
    lemma_step_len(s);
    let (tok, n) = step(s)->Ok_0;
    let rest = s.skip(n as int);
    spaces_become_whitespace_tokens(rest);
    lemma_step_spaces(s);
    assert(s =~= s.take(n as int) + rest);
    lemma_count_char_concat(s.take(n as int), rest, ' ');
    let ts = lex(s)->Ok_0;
    let rs = lex(rest)->Ok_0;
    assert(ts == opt_seq(tok) + rs);
    let empty = Seq::<TokenView>::empty();
    assert(whitespace_tokens(empty) == 0);
    assert(payload_spaces(empty) == 0);
    if tok is Some {
        let one = opt_seq(tok);
        assert(ts.drop_first() =~= rs);
        assert(ts[0] == one[0]);
        assert(one.drop_first() =~= empty);
        assert(whitespace_tokens(ts) == whitespace_tokens(one) + whitespace_tokens(rs));
        assert(payload_spaces(ts) == payload_spaces(one) + payload_spaces(rs));
    } else {
        assert(opt_seq(tok) =~= empty);
        assert(ts =~= rs);
    }
}

} // verus!
