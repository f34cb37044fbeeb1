//! The JavaScript lexer: numbers and punctuators.

use crate::text::{chars_of, digit_value, is_ascii_digit, spec_digit_value, spec_is_ascii_digit};
use vstd::prelude::*;

verus! {

/// A token of the JavaScript subset.
#[derive(Debug, Clone, Copy, PartialEq, Eq)]
pub enum Token {
    /// A single character that is neither whitespace nor a digit.
    Punctuator(char),
    /// A run of decimal digits, as a number modulo 2^64.
    Number(u64),
}

/// ASCII whitespace: space, tab, line feed, form feed, carriage return.
pub open spec fn spec_is_whitespace(c: char) -> bool {
    c == ' ' || c == '\t' || c == '\n' || c == '\x0C' || c == '\r'
}

/// Whether `c` is ASCII whitespace.
#[verifier::when_used_as_spec(spec_is_whitespace)]
pub fn is_whitespace(c: char) -> (r: bool)
    ensures
        r == spec_is_whitespace(c),
{
    c == ' ' || c == '\t' || c == '\n' || c == '\x0C' || c == '\r'
}

/// The first position at or after `pos` that holds no whitespace; the
/// length of `input` if there is none.
pub open spec fn skip_whitespace(input: Seq<char>, pos: nat) -> nat
    decreases input.len() - pos,
{
    if pos < input.len() && spec_is_whitespace(input[pos as int]) {
        skip_whitespace(input, pos + 1)
    } else {
        pos
    }
}

/// The first position at or after `pos` that holds no decimal digit; the
/// length of `input` if there is none.
pub open spec fn digits_end(input: Seq<char>, pos: nat) -> nat
    decreases input.len() - pos,
{
    if pos < input.len() && spec_is_ascii_digit(input[pos as int]) {
        digits_end(input, pos + 1)
    } else {
        pos
    }
}

/// The number that a sequence of decimal digits denotes.
pub open spec fn decimal_value(digits: Seq<char>) -> nat
    decreases digits.len(),
{
    if digits.len() == 0 {
        0
    } else {
        (decimal_value(digits.drop_last()) * 10 + spec_digit_value(digits.last())) as nat
    }
}

/// `n` reduced modulo 2^64.
pub open spec fn wrap_u64(n: int) -> u64 {
    (n % 0x1_0000_0000_0000_0000) as u64
}

/// A token and the position behind it.
pub struct Lexed {
    pub token: Option<Token>,
    pub pos: nat,
}

/// The token that starts at or after `pos`, whitespace skipped, and the
/// position behind it; no token if only whitespace is left.
pub open spec fn lex_one(input: Seq<char>, pos: nat) -> Lexed {
    let start = skip_whitespace(input, pos);
    if start >= input.len() {
        Lexed { token: None, pos: start }
    } else if spec_is_ascii_digit(input[start as int]) {
        let end = digits_end(input, start);
        Lexed {
            token: Some(
                Token::Number(
                    wrap_u64(decimal_value(input.subrange(start as int, end as int)) as int),
                ),
            ),
            pos: end,
        }
    } else {
        Lexed { token: Some(Token::Punctuator(input[start as int])), pos: start + 1 }
    }
}

/// [`skip_whitespace`] skips the longest run of whitespace from `pos` on.
pub proof fn lemma_skip_whitespace(input: Seq<char>, pos: nat)
    requires
        pos <= input.len(),
    ensures
        pos <= skip_whitespace(input, pos) <= input.len(),
        forall|i: int| pos <= i < skip_whitespace(input, pos) ==> spec_is_whitespace(input[i]),
        skip_whitespace(input, pos) < input.len() ==> !spec_is_whitespace(
            input[skip_whitespace(input, pos) as int],
        ),
    decreases input.len() - pos,
{
    if pos < input.len() && spec_is_whitespace(input[pos as int]) {
        lemma_skip_whitespace(input, pos + 1);
    }
}

/// [`digits_end`] ends the longest run of digits from `pos` on.
pub proof fn lemma_digits_end(input: Seq<char>, pos: nat)
    requires
        pos <= input.len(),
    ensures
        pos <= digits_end(input, pos) <= input.len(),
        pos < input.len() && spec_is_ascii_digit(input[pos as int]) ==> pos < digits_end(
            input,
            pos,
        ),
        forall|i: int| pos <= i < digits_end(input, pos) ==> spec_is_ascii_digit(input[i]),
        digits_end(input, pos) < input.len() ==> !spec_is_ascii_digit(
            input[digits_end(input, pos) as int],
        ),
    decreases input.len() - pos,
{
    if pos < input.len() && spec_is_ascii_digit(input[pos as int]) {
        lemma_digits_end(input, pos + 1);
    }
}

/// A token ends behind the position it was looked for at, within the input.
pub proof fn lemma_lex_one_bounds(input: Seq<char>, pos: nat)
    requires
        pos <= input.len(),
    ensures
        pos <= lex_one(input, pos).pos <= input.len(),
        lex_one(input, pos).token is Some ==> pos < lex_one(input, pos).pos,
        lex_one(input, pos).token is None ==> lex_one(input, pos).pos == input.len(),
{
    lemma_skip_whitespace(input, pos);
    let start = skip_whitespace(input, pos);
    if start < input.len() {
        lemma_digits_end(input, start);
    }
}

/// Every token of `input` from `pos` on, in order.
pub open spec fn lex(input: Seq<char>, pos: nat) -> Seq<Token>
    decreases input.len() - pos,
{
    if pos > input.len() {
        Seq::empty()
    } else {
        let l = lex_one(input, pos);
        match l.token {
            None => Seq::empty(),
            Some(t) => {
                proof {
                    lemma_lex_one_bounds(input, pos);
                }
                seq![t] + lex(input, l.pos)
            },
        }
    }
}

/// The lexer: the characters of a script and a position in them.
#[derive(Debug, Clone, PartialEq, Eq)]
pub struct JsLexer {
    pos: usize,
    input: Vec<char>,
}

/// The lexer as plain data.
pub struct LexerModel {
    pub pos: nat,
    pub input: Seq<char>,
}

impl LexerModel {
    /// The position lies within the input.
    pub open spec fn wf(self) -> bool {
        self.pos <= self.input.len()
    }

    /// The tokens that are left.
    pub open spec fn remaining(self) -> Seq<Token> {
        lex(self.input, self.pos)
    }
}

impl View for JsLexer {
    type V = LexerModel;

    closed spec fn view(&self) -> LexerModel {
        LexerModel { pos: self.pos as nat, input: self.input@ }
    }
}

impl JsLexer {
    /// A lexer at the start of `js`.
    pub fn new(js: String) -> (l: JsLexer)
        ensures
            l@ == (LexerModel { pos: 0, input: js@ }),
            l@.wf(),
    {
        JsLexer { pos: 0, input: chars_of(js.as_str()) }
    }

    /// Reads a run of digits, which starts at the current position.
    fn consume_number(&mut self) -> (num: u64)
        requires
            old(self)@.wf(),
        ensures
            final(self)@.input == old(self)@.input,
            final(self)@.pos == digits_end(old(self)@.input, old(self)@.pos),
            num == wrap_u64(
                decimal_value(
                    old(self)@.input.subrange(old(self)@.pos as int, final(self)@.pos as int),
                ) as int,
            ),
            final(self)@.wf(),
    {
        let ghost start = self.pos as nat;
        let ghost input = self.input@;
        let mut num: u64 = 0;
        assert(input.subrange(start as int, start as int) =~= Seq::empty());
        loop
            invariant
                input == self.input@,
                start <= self.pos <= self.input.len(),
                digits_end(input, start) == digits_end(input, self.pos as nat),
                num == wrap_u64(decimal_value(input.subrange(start as int, self.pos as int)) as int),
            ensures
                self.pos as nat == digits_end(input, start),
            decreases self.input.len() - self.pos,
        {
            if self.pos >= self.input.len() {
                break;
            }
            let c = self.input[self.pos];
            if !is_ascii_digit(c) {
                break;
            }
            let d: u8 = digit_value(c);
            let ghost before = input.subrange(start as int, self.pos as int);
            let ghost after = input.subrange(start as int, self.pos + 1);
            proof {
                assert(after.drop_last() =~= before);
                assert(after.last() == c);
                lemma_wrapping_step(decimal_value(before) as int, d);
            }
            num = num.wrapping_mul(10).wrapping_add(d as u64);
            self.pos += 1;
        }
        num
    }

    /// The next token, or `None` once only whitespace is left.
    pub fn next(&mut self) -> (t: Option<Token>)
        requires
            old(self)@.wf(),
        ensures
            final(self)@.input == old(self)@.input,
            t == lex_one(old(self)@.input, old(self)@.pos).token,
            final(self)@.pos == lex_one(old(self)@.input, old(self)@.pos).pos,
            final(self)@.wf(),
    {
        let ghost input = self.input@;
        let ghost from = self.pos as nat;
        while self.pos < self.input.len() && is_whitespace(self.input[self.pos])
            invariant
                input == self.input@,
                from <= self.pos <= self.input.len(),
                skip_whitespace(input, from) == skip_whitespace(input, self.pos as nat),
            decreases self.input.len() - self.pos,
        {
            self.pos += 1;
        }
        if self.pos >= self.input.len() {
            return None;
        }
        let c = self.input[self.pos];
        if is_ascii_digit(c) {
            Some(Token::Number(self.consume_number()))
        } else {
            self.pos += 1;
            Some(Token::Punctuator(c))
        }
    }
}

/// One step of reading a number with wrapping arithmetic keeps the value
/// read so far, modulo 2^64.
pub proof fn lemma_wrapping_step(value: int, d: u8)
    requires
        0 <= value,
        d <= 9,
    ensures
        wrap_u64(value).wrapping_mul(10).wrapping_add(d as u64) == wrap_u64(value * 10 + d),
{
    let m = 0x1_0000_0000_0000_0000int;
    let w = wrap_u64(value);
    assert(w == value % m);
    let p = w.wrapping_mul(10);
    assert(p == (w * 10) % m);
    vstd::arithmetic::div_mod::lemma_mul_mod_noop_left(value, 10, m);
    assert(p == (value * 10) % m);
    vstd::arithmetic::div_mod::lemma_add_mod_noop(value * 10, d as int, m);
    assert((d as int) % m == d);
    assert(p.wrapping_add(d as u64) == (p + d) % m) by {
        if p + d > u64::MAX {
            vstd::arithmetic::div_mod::lemma_mod_sub_multiples_vanish(p + d, m);
            vstd::arithmetic::div_mod::lemma_small_mod((p + d - m) as nat, m as nat);
        } else {
            vstd::arithmetic::div_mod::lemma_small_mod((p + d) as nat, m as nat);
        }
    }
}

/// A run of digits ends where the first other character stands.
pub proof fn lemma_digits_end_of_run(input: Seq<char>, from: nat, to: nat)
    requires
        from <= to <= input.len(),
        forall|i: int| from <= i < to ==> spec_is_ascii_digit(#[trigger] input[i]),
        to < input.len() ==> !spec_is_ascii_digit(input[to as int]),
    ensures
        digits_end(input, from) == to,
    decreases to - from,
{
    if from < to {
        lemma_digits_end_of_run(input, from + 1, to);
    }
}

/// A number written out in digits, with something other than a digit or
/// nothing behind it, is one `Number` token with the value of the digits
/// modulo 2^64.
pub proof fn lemma_lex_one_number(input: Seq<char>, from: nat, to: nat)
    requires
        from < to <= input.len(),
        forall|i: int| from <= i < to ==> spec_is_ascii_digit(#[trigger] input[i]),
        to < input.len() ==> !spec_is_ascii_digit(input[to as int]),
    ensures
        lex_one(input, from) == (Lexed {
            token: Some(
                Token::Number(
                    wrap_u64(decimal_value(input.subrange(from as int, to as int)) as int),
                ),
            ),
            pos: to,
        }),
{
    lemma_digits_end_of_run(input, from, to);
    assert(spec_is_ascii_digit(input[from as int]));
}

} // verus!
