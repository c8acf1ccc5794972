//! The tokenizer: from characters to a sequence of tokens ending in `EOF`.
use vstd::prelude::*;

use crate::chars;
use crate::chars::{chars_of, is_alphabetic, is_alphanumeric, is_whitespace, push_char};

verus! {

/// The operators and punctuation of the expression language.
#[derive(Clone, Copy, Debug, PartialEq, Eq, Structural, PartialOrd, Ord, Hash)]
pub enum Operators {
    Plus,
    Minus,
    Star,
    Slash,
    Caret,
    Comma,
    Equal,
    Colon,
    Semicolon,
    Ampersand,
    Pipe,
    Exclamation,
    RangeDots,
    Prime,
    LParen,
    RParen,
    LBracket,
    RBracket,
    LessThan,
    GreaterThan,
    LessEqual,
    GreaterEqual,
    DoubleEqual,
    NotEqual,
}

/// A token. Real and complex literals keep the decimal text that was read;
/// that text is one that `str::parse::<f64>` accepts.
#[derive(Clone, Debug, PartialEq)]
pub enum Token {
    Integer(i64),
    /// A real literal, by its decimal text.
    Number(String),
    /// A complex literal `re + im·j`, by the decimal texts of both parts.
    Complex(String, String),
    Identifier(String),
    Operator(Operators),
    EOF,
}

/// The mathematical value of a token: strings are taken by their characters.
pub enum TokenView {
    Integer(i64),
    Number(Seq<char>),
    Complex(Seq<char>, Seq<char>),
    Identifier(Seq<char>),
    Operator(Operators),
    EOF,
}

impl View for Token {
    type V = TokenView;

    open spec fn view(&self) -> TokenView {
        match self {
            Token::Integer(n) => TokenView::Integer(*n),
            Token::Number(s) => TokenView::Number(s@),
            Token::Complex(re, im) => TokenView::Complex(re@, im@),
            Token::Identifier(s) => TokenView::Identifier(s@),
            Token::Operator(op) => TokenView::Operator(*op),
            Token::EOF => TokenView::EOF,
        }
    }
}

/// Why a text could not be tokenized.
#[derive(Clone, Copy, Debug, PartialEq, Eq, Structural)]
pub enum TokenizeError {
    /// A number followed by `j` whose text is not a real literal.
    InvalidComplex,
    /// A number whose text is not a literal of its kind.
    InvalidNumber,
    /// A character that starts no token.
    UnknownCharacter(char),
    /// An `e`/`E` exponent marker with no digit after it (and its sign).
    MissingExponentDigits,
}

/// The classification of one character that the tokenizer consults.
#[derive(Clone, Copy, Debug, PartialEq, Eq, Structural)]
pub struct CharClass {
    pub whitespace: bool,
    pub alphabetic: bool,
    pub alphanumeric: bool,
}

/// The class that std gives the character `c`.
pub open spec fn class_of(c: char) -> CharClass {
    CharClass {
        whitespace: chars::is_white_space(c),
        alphabetic: chars::char_is_alphabetic(c),
        alphanumeric: chars::char_is_alphanumeric(c),
    }
}

/// The classes of a sequence of characters, position by position.
pub open spec fn classes_of(cs: Seq<char>) -> Seq<CharClass> {
    Seq::new(cs.len(), |k: int| class_of(cs[k]))
}

/// Classes as std gives them: an alphabetic character is alphanumeric.
pub open spec fn classes_consistent(cls: Seq<CharClass>) -> bool {
    forall|k: int| 0 <= k < cls.len() && #[trigger] cls[k].alphabetic ==> cls[k].alphanumeric
}

/// A decimal digit, as `char::is_digit(10)` defines it.
pub open spec fn is_dec_digit(c: char) -> bool {
    '0' <= c <= '9'
}

/// `cs` holds `c` at position `i`.
pub open spec fn is_at(cs: Seq<char>, i: int, c: char) -> bool {
    0 <= i < cs.len() && cs[i] == c
}

/// End of the mantissa of a number read from `j`: digits, and dots that are
/// not followed by another dot.
pub open spec fn mantissa_end(cs: Seq<char>, j: int) -> int
    decreases cs.len() - j,
{
    if 0 <= j < cs.len() && (is_dec_digit(cs[j]) || (cs[j] == '.' && !is_at(cs, j + 1, '.'))) {
        mantissa_end(cs, j + 1)
    } else {
        j
    }
}

/// End of the run of decimal digits that starts at `j`.
pub open spec fn digits_end(cs: Seq<char>, j: int) -> int
    decreases cs.len() - j,
{
    if 0 <= j < cs.len() && is_dec_digit(cs[j]) {
        digits_end(cs, j + 1)
    } else {
        j
    }
}

/// End of the number that starts at `i` (mantissa, then an optional
/// exponent `e`/`E`, sign, digits), or the error of reading it.
pub open spec fn number_end(cs: Seq<char>, i: int) -> Result<int, TokenizeError> {
    let m = mantissa_end(cs, i);
    if is_at(cs, m, 'e') || is_at(cs, m, 'E') {
        let k = if is_at(cs, m + 1, '+') || is_at(cs, m + 1, '-') {
            m + 2
        } else {
            m + 1
        };
        let d = digits_end(cs, k);
        if d == k {
            Err(TokenizeError::MissingExponentDigits)
        } else {
            Ok(d)
        }
    } else {
        Ok(m)
    }
}

/// The number of dots in `s`.
pub open spec fn count_dots(s: Seq<char>) -> nat
    decreases s.len(),
{
    if s.len() == 0 {
        0
    } else {
        count_dots(s.drop_last()) + if s.last() == '.' {
            1nat
        } else {
            0nat
        }
    }
}

/// Whether `str::parse::<f64>` accepts a number text whose mantissa (digits
/// and dots) is `mant` and whose exponent, if any, is well formed: std's
/// grammar asks for at most one dot and at least one digit.
pub open spec fn real_text_ok(mant: Seq<char>) -> bool {
    count_dots(mant) <= 1 && count_dots(mant) < mant.len()
}

/// The value of a text of decimal digits.
pub open spec fn digits_value(s: Seq<char>) -> nat
    decreases s.len(),
{
    if s.len() == 0 {
        0
    } else {
        digits_value(s.drop_last()) * 10 + (s.last() as int - '0' as int) as nat
    }
}

/// The text of the real part of a complex literal read from the input.
pub open spec fn zero_text() -> Seq<char> {
    seq!['0', '.', '0']
}

/// The token read at `i`, which starts a number, and where reading ends.
pub open spec fn number_token(cs: Seq<char>, i: int) -> Result<(TokenView, int), TokenizeError> {
    match number_end(cs, i) {
        Err(e) => Err(e),
        Ok(end) => {
            let m = mantissa_end(cs, i);
            let text = cs.subrange(i, end);
            let mant = cs.subrange(i, m);
            let is_real = count_dots(mant) > 0 || end > m;
            if is_at(cs, end, 'j') {
                if real_text_ok(mant) {
                    Ok((TokenView::Complex(zero_text(), text), end + 1))
                } else {
                    Err(TokenizeError::InvalidComplex)
                }
            } else if !is_real && digits_value(text) <= i64::MAX {
                Ok((TokenView::Integer(digits_value(text) as i64), end))
            } else if real_text_ok(mant) {
                Ok((TokenView::Number(text), end))
            } else {
                Err(TokenizeError::InvalidNumber)
            }
        },
    }
}

/// End of an identifier whose characters from `j` on are alphanumeric or `_`.
pub open spec fn ident_end(cs: Seq<char>, cls: Seq<CharClass>, j: int) -> int
    decreases cs.len() - j,
{
    if 0 <= j < cs.len() && j < cls.len() && (cls[j].alphanumeric || cs[j] == '_') {
        ident_end(cs, cls, j + 1)
    } else {
        j
    }
}

/// The operator written by the single character `c`, among those that need
/// no look-ahead.
pub open spec fn single_char_operator(c: char) -> Option<Operators> {
    if c == '+' {
        Some(Operators::Plus)
    } else if c == '-' {
        Some(Operators::Minus)
    } else if c == '*' {
        Some(Operators::Star)
    } else if c == '/' {
        Some(Operators::Slash)
    } else if c == '^' {
        Some(Operators::Caret)
    } else if c == ',' {
        Some(Operators::Comma)
    } else if c == ';' {
        Some(Operators::Semicolon)
    } else if c == ':' {
        Some(Operators::Colon)
    } else if c == '(' {
        Some(Operators::LParen)
    } else if c == ')' {
        Some(Operators::RParen)
    } else if c == '[' {
        Some(Operators::LBracket)
    } else if c == ']' {
        Some(Operators::RBracket)
    } else if c == '&' {
        Some(Operators::Ampersand)
    } else if c == '|' {
        Some(Operators::Pipe)
    } else if c == '\'' {
        Some(Operators::Prime)
    } else {
        None
    }
}

/// The operator that starts at `i` and where it ends: `!`, `<`, `>` and `=`
/// take a following `=` with them.
pub open spec fn operator_token(cs: Seq<char>, i: int) -> Option<(Operators, int)> {
    let c = cs[i];
    let eq_next = is_at(cs, i + 1, '=');
    if c == '!' {
        if eq_next { Some((Operators::NotEqual, i + 2)) } else { Some((Operators::Exclamation, i + 1)) }
    } else if c == '<' {
        if eq_next { Some((Operators::LessEqual, i + 2)) } else { Some((Operators::LessThan, i + 1)) }
    } else if c == '>' {
        if eq_next { Some((Operators::GreaterEqual, i + 2)) } else { Some((Operators::GreaterThan, i + 1)) }
    } else if c == '=' {
        if eq_next { Some((Operators::DoubleEqual, i + 2)) } else { Some((Operators::Equal, i + 1)) }
    } else {
        match single_char_operator(c) {
            Some(op) => Some((op, i + 1)),
            None => None,
        }
    }
}

/// `t` in front of the tokens of `r`, if `r` succeeded.
pub open spec fn prepend(t: TokenView, r: Result<Seq<TokenView>, TokenizeError>) -> Result<
    Seq<TokenView>,
    TokenizeError,
> {
    match r {
        Ok(s) => Ok(seq![t] + s),
        Err(e) => Err(e),
    }
}

/// The tokens of `cs` from position `i` on, `EOF` included, where `cls`
/// gives the class of each character.
pub open spec fn tokenize_from(cs: Seq<char>, cls: Seq<CharClass>, i: int) -> Result<
    Seq<TokenView>,
    TokenizeError,
>
    decreases cs.len() - i,
    when 0 <= i && cls.len() == cs.len() && classes_consistent(cls)
{
    if i >= cs.len() {
        Ok(seq![TokenView::EOF])
    } else {
        let c = cs[i];
        if cls[i].whitespace {
            tokenize_from(cs, cls, i + 1)
        } else if c == '.' && is_at(cs, i + 1, '.') {
            prepend(TokenView::Operator(Operators::RangeDots), tokenize_from(cs, cls, i + 2))
        } else if is_dec_digit(c) || c == '.' {
            match number_token(cs, i) {
                Err(e) => Err(e),
                Ok((t, end)) => {
                    proof {
                        lemma_number_token_advances(cs, i);
                    }
                    prepend(t, tokenize_from(cs, cls, end))
                },
            }
        } else if cls[i].alphabetic {
            let j = ident_end(cs, cls, i);
            proof {
                lemma_ident_end_bounds(cs, cls, i + 1);
            }
            prepend(TokenView::Identifier(cs.subrange(i, j)), tokenize_from(cs, cls, j))
        } else {
            match operator_token(cs, i) {
                Some((op, end)) => prepend(TokenView::Operator(op), tokenize_from(cs, cls, end)),
                None => Err(TokenizeError::UnknownCharacter(c)),
            }
        }
    }
}

/// The tokens of `cs` with the classes that std gives its characters.
pub open spec fn tokenize_spec(cs: Seq<char>) -> Result<Seq<TokenView>, TokenizeError> {
    tokenize_from(cs, classes_of(cs), 0)
}

/// Token sequences that end with `EOF` and hold no other `EOF`.
pub open spec fn eof_terminated(ts: Seq<TokenView>) -> bool {
    ts.len() > 0 && ts.last() is EOF && forall|k: int|
        0 <= k < ts.len() - 1 ==> !(#[trigger] ts[k] is EOF)
}

/// The tokens read from `i` end with the one `EOF`, and there are at most
/// as many tokens besides it as characters are left.
pub proof fn lemma_tokenize_from_eof_terminated(cs: Seq<char>, cls: Seq<CharClass>, i: int)
    requires
        0 <= i <= cs.len(),
        cls.len() == cs.len(),
        classes_consistent(cls),
    ensures
        tokenize_from(cs, cls, i) matches Ok(ts) ==> eof_terminated(ts) && ts.len() <= cs.len() - i + 1,
    decreases cs.len() - i,
{
    if i < cs.len() {
        let c = cs[i];
        if cls[i].whitespace {
            lemma_tokenize_from_eof_terminated(cs, cls, i + 1);
        } else if c == '.' && is_at(cs, i + 1, '.') {
            lemma_tokenize_from_eof_terminated(cs, cls, i + 2);
            lemma_prepend_keeps_eof(TokenView::Operator(Operators::RangeDots), tokenize_from(cs, cls, i + 2));
        } else if is_dec_digit(c) || c == '.' {
            lemma_number_token_advances(cs, i);
            if let Ok((t, end)) = number_token(cs, i) {
                lemma_tokenize_from_eof_terminated(cs, cls, end);
                lemma_prepend_keeps_eof(t, tokenize_from(cs, cls, end));
            }
        } else if cls[i].alphabetic {
            let j = ident_end(cs, cls, i);
            lemma_ident_end_bounds(cs, cls, i + 1);
            lemma_tokenize_from_eof_terminated(cs, cls, j);
            lemma_prepend_keeps_eof(TokenView::Identifier(cs.subrange(i, j)), tokenize_from(cs, cls, j));
        } else if let Some((op, end)) = operator_token(cs, i) {
            lemma_tokenize_from_eof_terminated(cs, cls, end);
            lemma_prepend_keeps_eof(TokenView::Operator(op), tokenize_from(cs, cls, end));
        }
    } else {
        assert(seq![TokenView::EOF].last() is EOF);
    }
}

proof fn lemma_prepend_keeps_eof(t: TokenView, r: Result<Seq<TokenView>, TokenizeError>)
    requires
        !(t is EOF),
        r matches Ok(ts) ==> eof_terminated(ts),
    ensures
        prepend(t, r) matches Ok(ts) ==> eof_terminated(ts) && ts.len() == r->Ok_0.len() + 1,
{
    if let Ok(ts) = r {
        let u = seq![t] + ts;
        assert forall|k: int| 0 <= k < u.len() - 1 implies !(#[trigger] u[k] is EOF) by {
            if k > 0 {
                assert(u[k] == ts[k - 1]);
            }
        }
        assert(u.last() == ts.last());
    }
}

pub proof fn lemma_mantissa_end_bounds(cs: Seq<char>, j: int)
    requires
        0 <= j <= cs.len(),
    ensures
        j <= mantissa_end(cs, j) <= cs.len(),
    decreases cs.len() - j,
{
    if j < cs.len() {
        lemma_mantissa_end_bounds(cs, j + 1);
    }
}

pub proof fn lemma_digits_end_bounds(cs: Seq<char>, j: int)
    requires
        0 <= j,
    ensures
        j <= digits_end(cs, j),
        j <= cs.len() ==> digits_end(cs, j) <= cs.len(),
    decreases cs.len() - j,
{
    if j < cs.len() {
        lemma_digits_end_bounds(cs, j + 1);
    }
}

pub proof fn lemma_ident_end_bounds(cs: Seq<char>, cls: Seq<CharClass>, j: int)
    requires
        0 <= j,
    ensures
        j <= ident_end(cs, cls, j),
        j <= cs.len() ==> ident_end(cs, cls, j) <= cs.len(),
    decreases cs.len() - j,
{
    if j < cs.len() {
        lemma_ident_end_bounds(cs, cls, j + 1);
    }
}

/// Reading a number at a digit, or at a dot not followed by a dot, moves on.
pub proof fn lemma_number_token_advances(cs: Seq<char>, i: int)
    requires
        0 <= i < cs.len(),
        is_dec_digit(cs[i]) || (cs[i] == '.' && !is_at(cs, i + 1, '.')),
    ensures
        number_token(cs, i) matches Ok((_, end)) ==> i < end <= cs.len(),
{
    lemma_mantissa_end_bounds(cs, i + 1);
    let m = mantissa_end(cs, i);
    assert(m == mantissa_end(cs, i + 1));
    if is_at(cs, m, 'e') || is_at(cs, m, 'E') {
        lemma_digits_end_bounds(cs, m + 1);
        lemma_digits_end_bounds(cs, m + 2);
    }
}


/// `acc` in front of the tokens of `r`, if `r` succeeded.
pub open spec fn prepend_all(acc: Seq<TokenView>, r: Result<Seq<TokenView>, TokenizeError>) -> Result<
    Seq<TokenView>,
    TokenizeError,
> {
    match r {
        Ok(s) => Ok(acc + s),
        Err(e) => Err(e),
    }
}

/// The tokens of a vector, each by its view.
pub open spec fn tokens_view(ts: Seq<Token>) -> Seq<TokenView> {
    ts.map_values(|t: Token| t@)
}

/// A tokenizer result, its tokens taken by their views.
pub open spec fn tokenize_result_view(r: Result<Vec<Token>, TokenizeError>) -> Result<
    Seq<TokenView>,
    TokenizeError,
> {
    match r {
        Ok(v) => Ok(tokens_view(v@)),
        Err(e) => Err(e),
    }
}

proof fn lemma_prepend_all_step(acc: Seq<TokenView>, t: TokenView, r: Result<Seq<TokenView>, TokenizeError>)
    ensures
        prepend_all(acc, prepend(t, r)) == prepend_all(acc.push(t), r),
{
    if let Ok(s) = r {
        assert(acc + (seq![t] + s) =~= acc.push(t) + s);
    }
}

proof fn lemma_count_dots_zero(s: Seq<char>, k: int)
    requires
        count_dots(s) == 0,
        0 <= k < s.len(),
    ensures
        s[k] != '.',
    decreases s.len(),
{
    if k < s.len() - 1 {
        lemma_count_dots_zero(s.drop_last(), k);
    }
}

proof fn lemma_digits_value_grows(s: Seq<char>, k: int)
    requires
        0 <= k <= s.len(),
        forall|q: int| 0 <= q < s.len() ==> is_dec_digit(#[trigger] s[q]),
    ensures
        digits_value(s.take(k)) <= digits_value(s),
    decreases s.len(),
{
    if k < s.len() {
        let t = s.drop_last();
        assert(t.take(k) =~= s.take(k));
        lemma_digits_value_grows(t, k);
    } else {
        assert(s.take(k) =~= s);
    }
}

fn is_digit(c: char) -> (r: bool)
    ensures
        r == is_dec_digit(c),
{
    '0' <= c && c <= '9'
}

/// Scans the mantissa of a number from `i`: its end and its number of dots.
fn scan_mantissa(cs: &Vec<char>, i: usize) -> (r: (usize, usize))
    requires
        i <= cs.len(),
    ensures
        r.0 == mantissa_end(cs@, i as int),
        i <= r.0 <= cs.len(),
        r.1 == count_dots(cs@.subrange(i as int, r.0 as int)),
        forall|k: int| i <= k < r.0 ==> is_dec_digit(#[trigger] cs@[k]) || cs@[k] == '.',
{
    let mut j = i;
    let mut dots: usize = 0;
    while j < cs.len() && (is_digit(cs[j]) || (cs[j] == '.' && !(j + 1 < cs.len() && cs[j + 1] == '.')))
        invariant
            i <= j <= cs.len(),
            mantissa_end(cs@, i as int) == mantissa_end(cs@, j as int),
            dots == count_dots(cs@.subrange(i as int, j as int)),
            dots <= j - i,
            forall|k: int| i <= k < j ==> is_dec_digit(#[trigger] cs@[k]) || cs@[k] == '.',
        decreases cs.len() - j,
    {
        assert(cs@.subrange(i as int, j + 1).drop_last() =~= cs@.subrange(i as int, j as int));
        if cs[j] == '.' {
            dots = dots + 1;
        }
        j = j + 1;
    }
    (j, dots)
}

/// Scans a run of decimal digits from `k`.
fn scan_digits(cs: &Vec<char>, k: usize) -> (r: usize)
    requires
        k <= cs.len(),
    ensures
        r == digits_end(cs@, k as int),
        k <= r <= cs.len(),
{
    let mut j = k;
    while j < cs.len() && is_digit(cs[j])
        invariant
            k <= j <= cs.len(),
            digits_end(cs@, k as int) == digits_end(cs@, j as int),
        decreases cs.len() - j,
    {
        j = j + 1;
    }
    j
}

/// The characters of `cs` from `from` up to `to`, as a string.
fn text_of(cs: &Vec<char>, from: usize, to: usize) -> (s: String)
    requires
        from <= to <= cs.len(),
    ensures
        s@ == cs@.subrange(from as int, to as int),
{
    let mut s = String::new();
    let mut k = from;
    while k < to
        invariant
            from <= k <= to <= cs.len(),
            s@ == cs@.subrange(from as int, k as int),
        decreases to - k,
    {
        push_char(&mut s, cs[k]);
        assert(s@ =~= cs@.subrange(from as int, k + 1));
        k = k + 1;
    }
    s
}

/// The value of the digits from `from` up to `to`, if it fits in an `i64`.
fn digits_to_i64(cs: &Vec<char>, from: usize, to: usize) -> (r: Option<i64>)
    requires
        from <= to <= cs.len(),
        forall|k: int| from <= k < to ==> is_dec_digit(#[trigger] cs@[k]),
    ensures
        r is Some <==> digits_value(cs@.subrange(from as int, to as int)) <= i64::MAX,
        r matches Some(v) ==> v == digits_value(cs@.subrange(from as int, to as int)),
{
    let ghost whole = cs@.subrange(from as int, to as int);
    let mut v: u64 = 0;
    let mut k = from;
    while k < to
        invariant
            from <= k <= to <= cs.len(),
            whole == cs@.subrange(from as int, to as int),
            forall|q: int| from <= q < to ==> is_dec_digit(#[trigger] cs@[q]),
            v == digits_value(cs@.subrange(from as int, k as int)),
            v <= i64::MAX,
        decreases to - k,
    {
        let c = cs[k];
        assert(is_dec_digit(cs@[k as int]));
        let d: u32 = (c as u32) - ('0' as u32);
        let nv: u128 = (v as u128) * 10 + (d as u128);
        assert(cs@.subrange(from as int, k + 1).drop_last() =~= cs@.subrange(from as int, k as int));
        if nv > (i64::MAX as u128) {
            proof {
                assert(whole.take(k + 1 - from) =~= cs@.subrange(from as int, k + 1));
                assert forall|q: int| 0 <= q < whole.len() implies is_dec_digit(#[trigger] whole[q]) by {
                    assert(whole[q] == cs@[from + q]);
                }
                lemma_digits_value_grows(whole, k + 1 - from);
            }
            return None;
        }
        v = nv as u64;
        k = k + 1;
    }
    Some(v as i64)
}

/// Reads the number that starts at `i`.
fn number_at(cs: &Vec<char>, i: usize) -> (r: Result<(Token, usize), TokenizeError>)
    requires
        i < cs.len(),
        is_dec_digit(cs@[i as int]) || (cs@[i as int] == '.' && !is_at(cs@, i + 1, '.')),
    ensures
        match r {
            Ok((t, e)) => number_token(cs@, i as int) == Ok::<(TokenView, int), TokenizeError>((t@, e as int)),
            Err(err) => number_token(cs@, i as int) == Err::<(TokenView, int), TokenizeError>(err),
        },
{
    let (m, dots) = scan_mantissa(cs, i);
    let mut end = m;
    if m < cs.len() && (cs[m] == 'e' || cs[m] == 'E') {
        let mut k = m + 1;
        if k < cs.len() && (cs[k] == '+' || cs[k] == '-') {
            k = k + 1;
        }
        let d = scan_digits(cs, k);
        if d == k {
            return Err(TokenizeError::MissingExponentDigits);
        }
        end = d;
    }
    proof {
        lemma_number_token_advances(cs@, i as int);
    }
    let ghost mant = cs@.subrange(i as int, m as int);
    let mant_ok = dots <= 1 && dots < m - i;
    let is_real = dots > 0 || end > m;
    if end < cs.len() && cs[end] == 'j' {
        if mant_ok {
            let re = String::from_str("0.0");
            proof {
                reveal_strlit("0.0");
                assert(re@ =~= zero_text());
            }
            let text = text_of(cs, i, end);
            return Ok((Token::Complex(re, text), end + 1));
        } else {
            return Err(TokenizeError::InvalidComplex);
        }
    }
    if !is_real {
        proof {
            assert forall|k: int| i <= k < end implies is_dec_digit(#[trigger] cs@[k]) by {
                assert(mant[k - i] == cs@[k]);
                lemma_count_dots_zero(mant, k - i);
            }
        }
        if let Some(v) = digits_to_i64(cs, i, end) {
            return Ok((Token::Integer(v), end));
        }
    }
    if mant_ok {
        let text = text_of(cs, i, end);
        Ok((Token::Number(text), end))
    } else {
        Err(TokenizeError::InvalidNumber)
    }
}

fn single_operator(c: char) -> (r: Option<Operators>)
    ensures
        r == single_char_operator(c),
{
    if c == '+' {
        Some(Operators::Plus)
    } else if c == '-' {
        Some(Operators::Minus)
    } else if c == '*' {
        Some(Operators::Star)
    } else if c == '/' {
        Some(Operators::Slash)
    } else if c == '^' {
        Some(Operators::Caret)
    } else if c == ',' {
        Some(Operators::Comma)
    } else if c == ';' {
        Some(Operators::Semicolon)
    } else if c == ':' {
        Some(Operators::Colon)
    } else if c == '(' {
        Some(Operators::LParen)
    } else if c == ')' {
        Some(Operators::RParen)
    } else if c == '[' {
        Some(Operators::LBracket)
    } else if c == ']' {
        Some(Operators::RBracket)
    } else if c == '&' {
        Some(Operators::Ampersand)
    } else if c == '|' {
        Some(Operators::Pipe)
    } else if c == '\'' {
        Some(Operators::Prime)
    } else {
        None
    }
}

/// Reads the operator that starts at `i`, if one does.
fn operator_at(cs: &Vec<char>, i: usize) -> (r: Option<(Operators, usize)>)
    requires
        i < cs.len(),
    ensures
        match r {
            Some((op, e)) => operator_token(cs@, i as int) == Some((op, e as int)),
            None => operator_token(cs@, i as int) is None,
        },
{
    let c = cs[i];
    let eq_next = i + 1 < cs.len() && cs[i + 1] == '=';
    if c == '!' {
        if eq_next { Some((Operators::NotEqual, i + 2)) } else { Some((Operators::Exclamation, i + 1)) }
    } else if c == '<' {
        if eq_next { Some((Operators::LessEqual, i + 2)) } else { Some((Operators::LessThan, i + 1)) }
    } else if c == '>' {
        if eq_next { Some((Operators::GreaterEqual, i + 2)) } else { Some((Operators::GreaterThan, i + 1)) }
    } else if c == '=' {
        if eq_next { Some((Operators::DoubleEqual, i + 2)) } else { Some((Operators::Equal, i + 1)) }
    } else {
        match single_operator(c) {
            Some(op) => Some((op, i + 1)),
            None => None,
        }
    }
}

/// The class of each character, as std gives it.
pub fn classify(cs: &Vec<char>) -> (cls: Vec<CharClass>)
    ensures
        cls@ == classes_of(cs@),
        classes_consistent(cls@),
{
    let mut cls: Vec<CharClass> = Vec::new();
    let mut k: usize = 0;
    while k < cs.len()
        invariant
            k <= cs.len(),
            cls@ =~= classes_of(cs@).take(k as int),
            classes_consistent(cls@),
        decreases cs.len() - k,
    {
        let c = cs[k];
        let whitespace = is_whitespace(c);
        let alphabetic = is_alphabetic(c);
        let alphanumeric = is_alphanumeric(c);
        cls.push(CharClass { whitespace, alphabetic, alphanumeric });
        k = k + 1;
    }
    cls
}

/// Tokenizes the characters `cs`, where `cls` gives the class of each.
pub fn tokenize_chars(cs: &Vec<char>, cls: &Vec<CharClass>) -> (res: Result<Vec<Token>, TokenizeError>)
    requires
        cls.len() == cs.len(),
        classes_consistent(cls@),
    ensures
        tokenize_result_view(res) == tokenize_from(cs@, cls@, 0),
        res matches Ok(v) ==> eof_terminated(tokens_view(v@)) && v@.len() <= cs@.len() + 1,
{
    proof {
        lemma_tokenize_from_eof_terminated(cs@, cls@, 0);
    }
    let mut tokens: Vec<Token> = Vec::new();
    let mut i: usize = 0;
    while i < cs.len()
        invariant
            i <= cs.len(),
            cls.len() == cs.len(),
            classes_consistent(cls@),
            tokenize_from(cs@, cls@, 0) == prepend_all(tokens_view(tokens@), tokenize_from(cs@, cls@, i as int)),
        decreases cs.len() - i,
    {
        let c = cs[i];
        let ghost acc = tokens_view(tokens@);
        if cls[i].whitespace {
            i = i + 1;
        } else if c == '.' && i + 1 < cs.len() && cs[i + 1] == '.' {
            let t = Token::Operator(Operators::RangeDots);
            proof {
                lemma_prepend_all_step(acc, t@, tokenize_from(cs@, cls@, i + 2));
            }
            tokens.push(t);
            assert(tokens_view(tokens@) =~= acc.push(t@));
            i = i + 2;
        } else if is_digit(c) || c == '.' {
            match number_at(cs, i) {
                Err(e) => {
                    return Err(e);
                },
                Ok((t, end)) => {
                    proof {
                        lemma_number_token_advances(cs@, i as int);
                        lemma_prepend_all_step(acc, t@, tokenize_from(cs@, cls@, end as int));
                    }
                    tokens.push(t);
                    assert(tokens_view(tokens@) =~= acc.push(t@));
                    i = end;
                },
            }
        } else if cls[i].alphabetic {
            let mut j = i;
            while j < cs.len() && (cls[j].alphanumeric || cs[j] == '_')
                invariant
                    i <= j <= cs.len(),
                    cls.len() == cs.len(),
                    ident_end(cs@, cls@, i as int) == ident_end(cs@, cls@, j as int),
                decreases cs.len() - j,
            {
                j = j + 1;
            }
            proof {
                lemma_ident_end_bounds(cs@, cls@, i + 1);
            }
            let t = Token::Identifier(text_of(cs, i, j));
            proof {
                lemma_prepend_all_step(acc, t@, tokenize_from(cs@, cls@, j as int));
            }
            tokens.push(t);
            assert(tokens_view(tokens@) =~= acc.push(t@));
            i = j;
        } else {
            match operator_at(cs, i) {
                None => {
                    return Err(TokenizeError::UnknownCharacter(c));
                },
                Some((op, end)) => {
                    let t = Token::Operator(op);
                    proof {
                        lemma_prepend_all_step(acc, t@, tokenize_from(cs@, cls@, end as int));
                    }
                    tokens.push(t);
                    assert(tokens_view(tokens@) =~= acc.push(t@));
                    i = end;
                },
            }
        }
    }
    let ghost acc = tokens_view(tokens@);
    tokens.push(Token::EOF);
    assert(tokens_view(tokens@) =~= acc + seq![TokenView::EOF]);
    Ok(tokens)
}

/// Tokenizes `input`: the tokens of its characters, the last of them `EOF`.
pub fn tokenizez(input: &str) -> (res: Result<Vec<Token>, TokenizeError>)
    ensures
        classes_consistent(classes_of(input@)),
        tokenize_result_view(res) == tokenize_spec(input@),
        res matches Ok(v) ==> eof_terminated(tokens_view(v@)) && v@.len() <= input@.len() + 1,
{
    let cs = chars_of(input);
    let cls = classify(&cs);
    tokenize_chars(&cs, &cls)
}

} // verus!
