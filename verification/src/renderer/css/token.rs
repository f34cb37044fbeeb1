//! The CSS tokenizer: a scanner over the characters of a style sheet.
//!
//! [`token_at`] and [`spec_next`] say which token stands at a position and
//! where it ends; [`CssTokenizer::next`] is proved to compute them.

use crate::error::Error;
use crate::text::{
    all_digits, chars_of, digit_value, is_ascii_alphabetic, is_ascii_digit, push_char,
    spec_digit_value, spec_is_ascii_alphabetic, spec_is_ascii_digit,
};
use vstd::prelude::*;

verus! {

/// A decimal number as it was written: its digits, most significant first,
/// and how many of them stand behind the decimal point.
///
/// The number is the value of the digits divided by ten to the power of
/// `scale`.
#[derive(Debug, Clone, PartialEq, Eq)]
pub struct CssNumber {
    digits: Vec<u8>,
    scale: usize,
}

/// What a number stands for.
pub struct CssNumberView {
    pub digits: Seq<u8>,
    pub scale: nat,
}

impl View for CssNumber {
    type V = CssNumberView;

    closed spec fn view(&self) -> CssNumberView {
        CssNumberView { digits: self.digits@, scale: self.scale as nat }
    }
}

impl CssNumberView {
    /// Every digit is at most 9, and no more digits stand behind the point
    /// than there are.
    pub open spec fn wf(self) -> bool {
        &&& self.scale <= self.digits.len()
        &&& forall|i: int| 0 <= i < self.digits.len() ==> #[trigger] self.digits[i] <= 9
    }
}

impl CssNumber {
    /// The number with the given digits, the last `scale` of them behind
    /// the decimal point; `None` if a digit is above 9 or `scale` exceeds
    /// the number of digits.
    pub fn new(digits: Vec<u8>, scale: usize) -> (n: Option<CssNumber>)
        ensures
            (CssNumberView { digits: digits@, scale: scale as nat }).wf() ==> n is Some && n->0@
                == (CssNumberView { digits: digits@, scale: scale as nat }),
            !(CssNumberView { digits: digits@, scale: scale as nat }).wf() ==> n is None,
    {
        if scale > digits.len() {
            return None;
        }
        let mut i: usize = 0;
        while i < digits.len()
            invariant
                i <= digits.len(),
                forall|k: int| 0 <= k < i ==> #[trigger] digits@[k] <= 9,
            decreases digits.len() - i,
        {
            if digits[i] > 9 {
                return None;
            }
            i += 1;
        }
        Some(CssNumber { digits, scale })
    }

    /// The digits, most significant first.
    pub fn digits(&self) -> (d: &Vec<u8>)
        ensures
            d@ == self@.digits,
    {
        &self.digits
    }

    /// How many of the digits stand behind the decimal point.
    pub fn scale(&self) -> (s: usize)
        ensures
            s == self@.scale,
    {
        self.scale
    }
}

/// A token of a style sheet.
#[derive(Debug, Clone, PartialEq, Eq)]
pub enum CssToken {
    HashToken(String),
    Delim(char),
    Number(CssNumber),
    Colon,
    SemiColon,
    OpenParenthesis,
    CloseParenthesis,
    OpenCurly,
    CloseCurly,
    Ident(String),
    StringToken(String),
    AtKeyword(String),
}

/// What a token stands for.
pub enum CssTokenView {
    HashToken(Seq<char>),
    Delim(char),
    Number(CssNumberView),
    Colon,
    SemiColon,
    OpenParenthesis,
    CloseParenthesis,
    OpenCurly,
    CloseCurly,
    Ident(Seq<char>),
    StringToken(Seq<char>),
    AtKeyword(Seq<char>),
}

impl View for CssToken {
    type V = CssTokenView;

    open spec fn view(&self) -> CssTokenView {
        match self {
            CssToken::HashToken(s) => CssTokenView::HashToken(s@),
            CssToken::Delim(c) => CssTokenView::Delim(*c),
            CssToken::Number(n) => CssTokenView::Number(n@),
            CssToken::Colon => CssTokenView::Colon,
            CssToken::SemiColon => CssTokenView::SemiColon,
            CssToken::OpenParenthesis => CssTokenView::OpenParenthesis,
            CssToken::CloseParenthesis => CssTokenView::CloseParenthesis,
            CssToken::OpenCurly => CssTokenView::OpenCurly,
            CssToken::CloseCurly => CssTokenView::CloseCurly,
            CssToken::Ident(s) => CssTokenView::Ident(s@),
            CssToken::StringToken(s) => CssTokenView::StringToken(s@),
            CssToken::AtKeyword(s) => CssTokenView::AtKeyword(s@),
        }
    }
}

/// A letter, a digit, a hyphen or an underscore: what an identifier is made
/// of behind its first character.
pub open spec fn spec_is_ident_char(c: char) -> bool {
    spec_is_ascii_alphabetic(c) || spec_is_ascii_digit(c) || c == '-' || c == '_'
}

/// Whether `c` can stand in an identifier behind its first character.
#[verifier::when_used_as_spec(spec_is_ident_char)]
pub fn is_ident_char(c: char) -> (r: bool)
    ensures
        r == spec_is_ident_char(c),
{
    is_ascii_alphabetic(c) || is_ascii_digit(c) || c == '-' || c == '_'
}

/// The first position at or after `from` that holds `c`; the length of
/// `input` if there is none.
pub open spec fn find_char(input: Seq<char>, from: int, c: char) -> int
    decreases input.len() - from,
{
    if 0 <= from < input.len() && input[from] != c {
        find_char(input, from + 1, c)
    } else {
        from
    }
}

/// The first position at or after `from` that holds no identifier
/// character; the length of `input` if there is none.
pub open spec fn ident_end(input: Seq<char>, from: int) -> int
    decreases input.len() - from,
{
    if 0 <= from < input.len() && spec_is_ident_char(input[from]) {
        ident_end(input, from + 1)
    } else {
        from
    }
}

/// The first position at or after `from` that holds neither a digit nor a
/// point; the length of `input` if there is none.
pub open spec fn number_end(input: Seq<char>, from: int) -> int
    decreases input.len() - from,
{
    if 0 <= from < input.len() && (spec_is_ascii_digit(input[from]) || input[from] == '.') {
        number_end(input, from + 1)
    } else {
        from
    }
}

/// [`find_char`] finds the first occurrence: no `c` stands between `from`
/// and the position found, and `c` stands there unless the input ended.
pub proof fn lemma_find_char(input: Seq<char>, from: int, c: char)
    requires
        0 <= from <= input.len(),
    ensures
        from <= find_char(input, from, c) <= input.len(),
        forall|i: int| from <= i < find_char(input, from, c) ==> input[i] != c,
        find_char(input, from, c) < input.len() ==> input[find_char(input, from, c)] == c,
    decreases input.len() - from,
{
    if from < input.len() && input[from] != c {
        lemma_find_char(input, from + 1, c);
    }
}

/// [`ident_end`] ends the longest run of identifier characters from
/// `from` on.
pub proof fn lemma_ident_end(input: Seq<char>, from: int)
    requires
        0 <= from <= input.len(),
    ensures
        from <= ident_end(input, from) <= input.len(),
        forall|i: int| from <= i < ident_end(input, from) ==> spec_is_ident_char(input[i]),
        ident_end(input, from) < input.len() ==> !spec_is_ident_char(
            input[ident_end(input, from)],
        ),
    decreases input.len() - from,
{
    if from < input.len() && spec_is_ident_char(input[from]) {
        lemma_ident_end(input, from + 1);
    }
}

/// [`number_end`] ends the longest run of digits and points from `from`
/// on.
pub proof fn lemma_number_end(input: Seq<char>, from: int)
    requires
        0 <= from <= input.len(),
    ensures
        from <= number_end(input, from) <= input.len(),
        forall|i: int|
            from <= i < number_end(input, from) ==> spec_is_ascii_digit(input[i]) || input[i]
                == '.',
        number_end(input, from) < input.len() ==> !spec_is_ascii_digit(
            input[number_end(input, from)],
        ) && input[number_end(input, from)] != '.',
    decreases input.len() - from,
{
    if from < input.len() && (spec_is_ascii_digit(input[from]) || input[from] == '.') {
        lemma_number_end(input, from + 1);
    }
}

/// The values of the digits among the characters of `s`, in order.
pub open spec fn digits_of(s: Seq<char>) -> Seq<u8>
    decreases s.len(),
{
    if s.len() == 0 {
        Seq::empty()
    } else if spec_is_ascii_digit(s.last()) {
        digits_of(s.drop_last()).push(spec_digit_value(s.last()) as u8)
    } else {
        digits_of(s.drop_last())
    }
}

/// How many digits of `s` stand behind its first point.
pub open spec fn fraction_digits(s: Seq<char>) -> nat
    decreases s.len(),
{
    if s.len() == 0 {
        0
    } else if spec_is_ascii_digit(s.last()) && s.drop_last().contains('.') {
        fraction_digits(s.drop_last()) + 1
    } else {
        fraction_digits(s.drop_last())
    }
}

/// The number that the characters of `s`, digits and points, denote. The
/// first point starts the fraction; later points change nothing.
pub open spec fn number_of(s: Seq<char>) -> CssNumberView {
    CssNumberView { digits: digits_of(s), scale: fraction_digits(s) }
}

/// The digits of a run of digits are its characters, one value each.
pub proof fn lemma_digits_of_digits(s: Seq<char>)
    requires
        all_digits(s),
    ensures
        digits_of(s).len() == s.len(),
        forall|i: int| 0 <= i < s.len() ==> #[trigger] digits_of(s)[i] == spec_digit_value(s[i]),
        fraction_digits(s) == 0,
    decreases s.len(),
{
    if s.len() > 0 {
        lemma_digits_of_digits(s.drop_last());
        assert(!s.drop_last().contains('.')) by {
            if s.drop_last().contains('.') {
                let i = choose|i: int| 0 <= i < s.drop_last().len() && s.drop_last()[i] == '.';
                assert(spec_is_ascii_digit(s[i]));
            }
        }
    }
}

/// A decimal literal is read exactly: the literal `a.b`, with digits `a`
/// before the point and digits `b` behind it, denotes the number whose
/// digits are those of `a` followed by those of `b`, as many of them
/// behind the point as `b` has. A literal without a point has no digit
/// behind the point.
pub proof fn lemma_decimal_literal(a: Seq<char>, b: Seq<char>)
    requires
        all_digits(a),
        all_digits(b),
    ensures
        number_of(a) == (CssNumberView { digits: digits_of(a), scale: 0 }),
        number_of(a + seq!['.'] + b) == (CssNumberView {
            digits: digits_of(a) + digits_of(b),
            scale: b.len(),
        }),
    decreases b.len(),
{
    lemma_digits_of_digits(a);
    let whole = a + seq!['.'];
    let s = whole + b;
    if b.len() == 0 {
        assert(s =~= whole);
        assert(whole.drop_last() =~= a);
        assert(digits_of(a) + digits_of(b) =~= digits_of(a));
    } else {
        lemma_decimal_literal(a, b.drop_last());
        lemma_digits_of_digits(b);
        assert(s.drop_last() =~= whole + b.drop_last());
        assert(s.last() == b.last());
        assert(s.drop_last().contains('.')) by {
            assert(s.drop_last()[a.len() as int] == '.');
        }
        assert(digits_of(a) + digits_of(b) =~= (digits_of(a) + digits_of(b.drop_last())).push(
            spec_digit_value(b.last()) as u8,
        ));
    }
}

/// What a call of [`CssTokenizer::next`] finds.
pub enum Found {
    /// A token.
    Token(CssTokenView),
    /// The end of the input.
    End,
    /// A character that starts no token.
    Unsupported(char),
}

/// What was found, and the position behind it.
pub struct Scanned {
    pub found: Found,
    pub pos: int,
}

/// An `@` at `pos` starts a keyword: three ASCII letters follow it.
pub open spec fn starts_at_keyword(input: Seq<char>, pos: int) -> bool {
    &&& pos + 3 < input.len()
    &&& spec_is_ascii_alphabetic(input[pos + 1])
    &&& spec_is_ascii_alphabetic(input[pos + 2])
    &&& spec_is_ascii_alphabetic(input[pos + 3])
}

/// The token that starts at `pos`, where a character other than a space or
/// a line feed stands.
///
/// A string runs from behind its opening quote to the next occurrence of
/// the same quote, which is skipped. The body of an at-keyword is read like
/// a string whose quote is the first letter of the keyword: it runs from
/// behind that letter to the next occurrence of the same letter, which is
/// not skipped.
pub open spec fn token_at(input: Seq<char>, pos: int) -> Scanned {
    let c = input[pos];
    if c == '(' {
        Scanned { found: Found::Token(CssTokenView::OpenParenthesis), pos: pos + 1 }
    } else if c == ')' {
        Scanned { found: Found::Token(CssTokenView::CloseParenthesis), pos: pos + 1 }
    } else if c == ',' || c == '.' {
        Scanned { found: Found::Token(CssTokenView::Delim(c)), pos: pos + 1 }
    } else if c == ':' {
        Scanned { found: Found::Token(CssTokenView::Colon), pos: pos + 1 }
    } else if c == ';' {
        Scanned { found: Found::Token(CssTokenView::SemiColon), pos: pos + 1 }
    } else if c == '{' {
        Scanned { found: Found::Token(CssTokenView::OpenCurly), pos: pos + 1 }
    } else if c == '}' {
        Scanned { found: Found::Token(CssTokenView::CloseCurly), pos: pos + 1 }
    } else if c == '"' || c == '\'' {
        let end = find_char(input, pos + 1, c);
        Scanned {
            found: Found::Token(
                CssTokenView::StringToken(input.subrange(pos + 1, end)),
            ),
            pos: if end < input.len() {
                end + 1
            } else {
                end
            },
        }
    } else if spec_is_ascii_digit(c) {
        let end = number_end(input, pos);
        Scanned {
            found: Found::Token(
                CssTokenView::Number(number_of(input.subrange(pos, end))),
            ),
            pos: end,
        }
    } else if c == '#' {
        let end = ident_end(input, pos + 1);
        Scanned {
            found: Found::Token(CssTokenView::HashToken(input.subrange(pos, end))),
            pos: end,
        }
    } else if c == '@' {
        if starts_at_keyword(input, pos) {
            let end = find_char(input, pos + 2, input[pos + 1]);
            Scanned {
                found: Found::Token(
                    CssTokenView::AtKeyword(input.subrange(pos + 2, end)),
                ),
                pos: end,
            }
        } else {
            Scanned { found: Found::Token(CssTokenView::Delim('@')), pos: pos + 1 }
        }
    } else if c == '-' || c == '_' || spec_is_ascii_alphabetic(c) {
        let end = ident_end(input, pos + 1);
        Scanned {
            found: Found::Token(CssTokenView::Ident(input.subrange(pos, end))),
            pos: end,
        }
    } else {
        Scanned { found: Found::Unsupported(c), pos }
    }
}

/// What a call of [`CssTokenizer::next`] at `pos` finds: spaces and line
/// feeds are skipped, then comes the end of the input or [`token_at`].
pub open spec fn spec_next(input: Seq<char>, pos: int) -> Scanned
    decreases input.len() - pos,
{
    if pos < 0 || pos >= input.len() {
        Scanned { found: Found::End, pos }
    } else if input[pos] == ' ' || input[pos] == '\n' {
        spec_next(input, pos + 1)
    } else {
        token_at(input, pos)
    }
}

/// The message of the error for a character that starts no token.
pub open spec fn unsupported_message(c: char) -> Seq<char> {
    "char "@ + seq![c] + " is not supported yet"@
}

/// The tokenizer: the characters of a style sheet and a position in them.
#[derive(Debug, Clone, PartialEq, Eq)]
pub struct CssTokenizer {
    pos: usize,
    input: Vec<char>,
}

/// The tokenizer as plain data.
pub struct CssTokenizerModel {
    pub pos: nat,
    pub input: Seq<char>,
}

impl View for CssTokenizer {
    type V = CssTokenizerModel;

    closed spec fn view(&self) -> CssTokenizerModel {
        CssTokenizerModel { pos: self.pos as nat, input: self.input@ }
    }
}

impl CssTokenizerModel {
    /// The position lies within the input.
    pub open spec fn wf(self) -> bool {
        self.pos <= self.input.len()
    }
}

impl CssTokenizer {
    /// A tokenizer at the start of `css`.
    pub fn new(css: String) -> (t: CssTokenizer)
        ensures
            t@ == (CssTokenizerModel { pos: 0, input: css@ }),
            t@.wf(),
    {
        CssTokenizer { pos: 0, input: chars_of(css.as_str()) }
    }

    /// Reads a string whose opening quote stands at the current position:
    /// everything behind it up to the next occurrence of the same character.
    /// The position is left at that occurrence, or at the end of the input.
    fn consume_string_token(&mut self) -> (s: String)
        requires
            old(self)@.pos < old(self)@.input.len(),
        ensures
            final(self)@.input == old(self)@.input,
            final(self)@.pos == find_char(
                old(self)@.input,
                old(self)@.pos as int + 1,
                old(self)@.input[old(self)@.pos as int],
            ),
            s@ == old(self)@.input.subrange(old(self)@.pos as int + 1, final(self)@.pos as int),
            final(self)@.wf(),
    {
        let mut s = String::new();
        let ghost input = self.input@;
        let ghost start = self.pos as int;
        assert(self.pos < self.input.len());
        let quote_char = self.input[self.pos];
        self.pos += 1;
        assert(input.subrange(start + 1, start + 1) =~= Seq::empty());
        while self.pos < self.input.len()
            invariant
                input == self.input@,
                0 <= start,
                start + 1 <= self.pos <= self.input.len(),
                find_char(input, start + 1, quote_char) == find_char(
                    input,
                    self.pos as int,
                    quote_char,
                ),
                s@ == input.subrange(start + 1, self.pos as int),
            ensures
                self.pos as int == find_char(input, start + 1, quote_char),
            decreases self.input.len() - self.pos,
        {
            let c = self.input[self.pos];
            if c == quote_char {
                break ;
            } else {
                push_char(&mut s, c);
                assert(input.subrange(start + 1, self.pos + 1) =~= input.subrange(
                    start + 1,
                    self.pos as int,
                ).push(c));
                self.pos += 1;
            }
        }
        s
    }

    /// Reads a number, whose first digit stands at the current position:
    /// every digit and point up to the first other character.
    fn consume_numeric_token(&mut self) -> (n: CssNumber)
        requires
            old(self)@.wf(),
        ensures
            final(self)@.input == old(self)@.input,
            final(self)@.pos == number_end(old(self)@.input, old(self)@.pos as int),
            n@ == number_of(
                old(self)@.input.subrange(old(self)@.pos as int, final(self)@.pos as int),
            ),
            n@.wf(),
            final(self)@.wf(),
    {
        let mut digits: Vec<u8> = Vec::new();
        let mut scale: usize = 0;
        let mut floating = false;
        let ghost input = self.input@;
        let ghost start = self.pos as int;
        assert(input.subrange(start, start) =~= Seq::empty());
        loop
            invariant
                input == self.input@,
                0 <= start <= self.pos <= self.input.len(),
                number_end(input, start) == number_end(input, self.pos as int),
                digits@ == digits_of(input.subrange(start, self.pos as int)),
                scale == fraction_digits(input.subrange(start, self.pos as int)),
                floating == input.subrange(start, self.pos as int).contains('.'),
                scale <= digits.len() <= self.pos - start,
                forall|i: int| 0 <= i < digits.len() ==> #[trigger] digits@[i] <= 9,
            ensures
                self.pos as int == number_end(input, start),
            decreases self.input.len() - self.pos,
        {
            if self.pos >= self.input.len() {
                break ;
            }
            let c = self.input[self.pos];
            let ghost before = input.subrange(start, self.pos as int);
            let ghost after = input.subrange(start, self.pos + 1);
            proof {
                assert(after.drop_last() =~= before);
                assert(after.last() == c);
                assert(after =~= before.push(c));
                assert(after.contains('.') <==> before.contains('.') || c == '.') by {
                    if before.contains('.') {
                        let i = choose|i: int| 0 <= i < before.len() && before[i] == '.';
                        assert(after[i] == '.');
                    }
                    if c == '.' {
                        assert(after[after.len() - 1] == '.');
                    }
                    if after.contains('.') {
                        let i = choose|i: int| 0 <= i < after.len() && after[i] == '.';
                        if i < before.len() {
                            assert(before[i] == '.');
                        }
                    }
                }
            }
            if is_ascii_digit(c) {
                digits.push(digit_value(c));
                if floating {
                    scale += 1;
                }
                self.pos += 1;
            } else if c == '.' {
                floating = true;
                self.pos += 1;
            } else {
                break ;
            }
        }
        CssNumber { digits, scale }
    }

    /// Reads an identifier, whose first character stands at the current
    /// position: that character and every identifier character behind it.
    fn consume_ident_token(&mut self) -> (s: String)
        requires
            old(self)@.pos < old(self)@.input.len(),
        ensures
            final(self)@.input == old(self)@.input,
            final(self)@.pos == ident_end(old(self)@.input, old(self)@.pos as int + 1),
            s@ == old(self)@.input.subrange(old(self)@.pos as int, final(self)@.pos as int),
            final(self)@.wf(),
    {
        let mut s = String::new();
        let ghost input = self.input@;
        let ghost start = self.pos as int;
        assert(self.pos < self.input.len());
        push_char(&mut s, self.input[self.pos]);
        assert(input.subrange(start, start + 1) =~= seq![input[start]]);
        self.pos += 1;
        loop
            invariant
                input == self.input@,
                0 <= start,
                start + 1 <= self.pos <= self.input.len(),
                ident_end(input, start + 1) == ident_end(input, self.pos as int),
                s@ == input.subrange(start, self.pos as int),
            ensures
                self.pos as int == ident_end(input, start + 1),
            decreases self.input.len() - self.pos,
        {
            if self.pos >= self.input.len() {
                break ;
            }
            let c = self.input[self.pos];
            if is_ident_char(c) {
                push_char(&mut s, c);
                assert(input.subrange(start, self.pos + 1) =~= input.subrange(
                    start,
                    self.pos as int,
                ).push(c));
                self.pos += 1;
            } else {
                break ;
            }
        }
        s
    }

    /// Whether the `@` at the current position starts a keyword.
    fn starts_at_keyword(&self) -> (r: bool)
        requires
            self@.pos < self@.input.len(),
        ensures
            r == starts_at_keyword(self@.input, self@.pos as int),
    {
        self.input.len() - self.pos > 3 && is_ascii_alphabetic(self.input[self.pos + 1])
            && is_ascii_alphabetic(self.input[self.pos + 2]) && is_ascii_alphabetic(
            self.input[self.pos + 3],
        )
    }

    /// The next token; `Ok(None)` at the end of the input.
    ///
    /// Spaces and line feeds between tokens are skipped. A character that
    /// starts no token is refused with `UnexpectedInput`; the tokenizer then
    /// stays at that character.
    pub fn next(&mut self) -> (r: Result<Option<CssToken>, Error>)
        requires
            old(self)@.wf(),
        ensures
            final(self)@.input == old(self)@.input,
            final(self)@.pos == spec_next(old(self)@.input, old(self)@.pos as int).pos,
            final(self)@.wf(),
            match spec_next(old(self)@.input, old(self)@.pos as int).found {
                Found::Token(t) => r is Ok && r->Ok_0 is Some && r->Ok_0->0@ == t,
                Found::End => r is Ok && r->Ok_0 is None,
                Found::Unsupported(c) => r is Err && r->Err_0 is UnexpectedInput
                    && r->Err_0.message() == unsupported_message(c),
            },
    {
        let ghost input = self.input@;
        let ghost from = self.pos as int;
        loop
            invariant
                input == self.input@,
                input == old(self)@.input,
                from == old(self)@.pos,
                0 <= from <= self.pos <= self.input.len(),
                spec_next(input, from) == spec_next(input, self.pos as int),
            decreases self.input.len() - self.pos,
        {
            if self.pos >= self.input.len() {
                return Ok(None);
            }
            let c = self.input[self.pos];
            let token = if c == '(' {
                self.pos += 1;
                CssToken::OpenParenthesis
            } else if c == ')' {
                self.pos += 1;
                CssToken::CloseParenthesis
            } else if c == ',' {
                self.pos += 1;
                CssToken::Delim(',')
            } else if c == '.' {
                self.pos += 1;
                CssToken::Delim('.')
            } else if c == ':' {
                self.pos += 1;
                CssToken::Colon
            } else if c == ';' {
                self.pos += 1;
                CssToken::SemiColon
            } else if c == '{' {
                self.pos += 1;
                CssToken::OpenCurly
            } else if c == '}' {
                self.pos += 1;
                CssToken::CloseCurly
            } else if c == ' ' || c == '\n' {
                self.pos += 1;
                continue ;
            } else if c == '"' || c == '\'' {
                let value = self.consume_string_token();
                if self.pos < self.input.len() {
                    self.pos += 1;
                }
                CssToken::StringToken(value)
            } else if is_ascii_digit(c) {
                CssToken::Number(self.consume_numeric_token())
            } else if c == '#' {
                CssToken::HashToken(self.consume_ident_token())
            } else if c == '-' {
                CssToken::Ident(self.consume_ident_token())
            } else if c == '@' {
                if self.starts_at_keyword() {
                    self.pos += 1;
                    CssToken::AtKeyword(self.consume_string_token())
                } else {
                    self.pos += 1;
                    CssToken::Delim('@')
                }
            } else if is_ascii_alphabetic(c) || c == '_' {
                CssToken::Ident(self.consume_ident_token())
            } else {
                let mut message = String::from_str("char ");
                push_char(&mut message, c);
                message.append(" is not supported yet");
                assert(message@ =~= unsupported_message(c));
                return Err(Error::UnexpectedInput(message));
            };
            return Ok(Some(token));
        }
    }
}

} // verus!
