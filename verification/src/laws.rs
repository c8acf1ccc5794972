//! Laws of the tokenizer (it never looks behind, and whitespace separates
//! tokens) and of the parser (how operators group by the precedence table).
use vstd::prelude::*;

use crate::ast;
use crate::ast::NodeView;
use crate::parsed;
use crate::tokenized::Operators;

use crate::tokenized::{
    class_of, classes_consistent, classes_of, digits_end, ident_end, is_at, is_dec_digit,
    mantissa_end, number_end, number_token, operator_token, prepend, tokenize_from, tokenize_spec,
    CharClass, TokenView, TokenizeError,
};

verus! {

/// A character that ends any token before it and starts none: classed as
/// whitespace and not alphanumeric, and none of the characters that the
/// tokenizer looks ahead for (digits, `.`, `=`, `j`, `e`, `E`, `+`, `-`, `_`).
pub open spec fn is_separator(c: char, cc: CharClass) -> bool {
    &&& cc.whitespace
    &&& !cc.alphanumeric
    &&& !cc.alphabetic
    &&& !is_dec_digit(c)
    &&& c != '.' && c != '=' && c != 'j' && c != 'e' && c != 'E'
    &&& c != '+' && c != '-' && c != '_'
}

/// The tokens of `a` (without its `EOF`) followed by those of `b`, or the
/// first error.
pub open spec fn join_tokens(
    ra: Result<Seq<TokenView>, TokenizeError>,
    rb: Result<Seq<TokenView>, TokenizeError>,
) -> Result<Seq<TokenView>, TokenizeError> {
    match ra {
        Err(e) => Err(e),
        Ok(ta) => match rb {
            Err(e) => Err(e),
            Ok(tb) => Ok(ta.drop_last() + tb),
        },
    }
}

/// A token read at a position moved by `d`.
pub open spec fn shift_token(r: Result<(TokenView, int), TokenizeError>, d: int) -> Result<
    (TokenView, int),
    TokenizeError,
> {
    match r {
        Ok((t, e)) => Ok((t, e + d)),
        Err(x) => Err(x),
    }
}

proof fn lemma_mantissa_end_shift(p: Seq<char>, b: Seq<char>, k: int)
    requires
        0 <= k <= b.len(),
    ensures
        mantissa_end(p + b, p.len() + k) == p.len() + mantissa_end(b, k),
    decreases b.len() - k,
{
    let s = p + b;
    if k < b.len() {
        assert(s[p.len() + k] == b[k]);
        assert(is_at(s, p.len() + k + 1, '.') == is_at(b, k + 1, '.'));
        lemma_mantissa_end_shift(p, b, k + 1);
    }
}

proof fn lemma_digits_end_shift(p: Seq<char>, b: Seq<char>, k: int)
    requires
        0 <= k,
    ensures
        digits_end(p + b, p.len() + k) == p.len() + digits_end(b, k),
    decreases b.len() - k,
{
    let s = p + b;
    if k < b.len() {
        assert(s[p.len() + k] == b[k]);
        lemma_digits_end_shift(p, b, k + 1);
    }
}

proof fn lemma_ident_end_shift(
    p: Seq<char>,
    cp: Seq<CharClass>,
    b: Seq<char>,
    cb: Seq<CharClass>,
    k: int,
)
    requires
        0 <= k,
        cp.len() == p.len(),
        cb.len() == b.len(),
    ensures
        ident_end(p + b, cp + cb, p.len() + k) == p.len() + ident_end(b, cb, k),
    decreases b.len() - k,
{
    let s = p + b;
    if k < b.len() {
        assert(s[p.len() + k] == b[k]);
        assert((cp + cb)[p.len() + k] == cb[k]);
        lemma_ident_end_shift(p, cp, b, cb, k + 1);
    }
}

proof fn lemma_is_at_shift(p: Seq<char>, b: Seq<char>, k: int, ch: char)
    requires
        0 <= k,
    ensures
        is_at(p + b, p.len() + k, ch) == is_at(b, k, ch),
{
    if k < b.len() {
        assert((p + b)[p.len() + k] == b[k]);
    }
}

proof fn lemma_number_token_shift(p: Seq<char>, b: Seq<char>, k: int)
    requires
        0 <= k <= b.len(),
    ensures
        number_token(p + b, p.len() + k) == shift_token(number_token(b, k), p.len() as int),
{
    let s = p + b;
    let d = p.len() as int;
    crate::tokenized::lemma_mantissa_end_bounds(b, k);
    lemma_mantissa_end_shift(p, b, k);
    let m = mantissa_end(b, k);
    lemma_is_at_shift(p, b, m, 'e');
    lemma_is_at_shift(p, b, m, 'E');
    lemma_is_at_shift(p, b, m + 1, '+');
    lemma_is_at_shift(p, b, m + 1, '-');
    lemma_digits_end_shift(p, b, m + 1);
    lemma_digits_end_shift(p, b, m + 2);
    match number_end(b, k) {
        Err(_) => {},
        Ok(end) => {
            crate::tokenized::lemma_digits_end_bounds(b, m + 1);
            crate::tokenized::lemma_digits_end_bounds(b, m + 2);
            assert(number_end(s, d + k) == Ok::<int, TokenizeError>(end + d));
            assert(s.subrange(d + k, d + end) =~= b.subrange(k, end));
            assert(s.subrange(d + k, d + m) =~= b.subrange(k, m));
            lemma_is_at_shift(p, b, end, 'j');
        },
    }
}

proof fn lemma_operator_token_shift(p: Seq<char>, b: Seq<char>, k: int)
    requires
        0 <= k < b.len(),
    ensures
        operator_token(p + b, p.len() + k) == match operator_token(b, k) {
            Some((op, e)) => Some((op, e + p.len())),
            None => None,
        },
{
    assert((p + b)[p.len() + k] == b[k]);
    lemma_is_at_shift(p, b, k + 1, '=');
}

/// What the tokenizer reads from a position of `p + b` inside `b` is what it
/// reads from the same position of `b` alone: it never looks behind.
pub proof fn law_tokenize_suffix(
    p: Seq<char>,
    cp: Seq<CharClass>,
    b: Seq<char>,
    cb: Seq<CharClass>,
    k: int,
)
    requires
        cp.len() == p.len(),
        cb.len() == b.len(),
        classes_consistent(cp),
        classes_consistent(cb),
        0 <= k <= b.len(),
    ensures
        tokenize_from(p + b, cp + cb, p.len() + k) == tokenize_from(b, cb, k),
    decreases b.len() - k,
{
    let s = p + b;
    let cs = cp + cb;
    let d = p.len() as int;
    assert(classes_consistent(cs)) by {
        assert forall|q: int| 0 <= q < cs.len() && #[trigger] cs[q].alphabetic implies cs[q].alphanumeric by {
            if q < d {
                assert(cs[q] == cp[q]);
            } else {
                assert(cs[q] == cb[q - d]);
            }
        }
    }
    if k < b.len() {
        let c = b[k];
        assert(s[d + k] == c);
        assert(cs[d + k] == cb[k]);
        lemma_is_at_shift(p, b, k + 1, '.');
        if cb[k].whitespace {
            law_tokenize_suffix(p, cp, b, cb, k + 1);
        } else if c == '.' && is_at(b, k + 1, '.') {
            law_tokenize_suffix(p, cp, b, cb, k + 2);
        } else if is_dec_digit(c) || c == '.' {
            lemma_number_token_shift(p, b, k);
            crate::tokenized::lemma_number_token_advances(b, k);
            if let Ok((t, end)) = number_token(b, k) {
                law_tokenize_suffix(p, cp, b, cb, end);
            }
        } else if cb[k].alphabetic {
            lemma_ident_end_shift(p, cp, b, cb, k);
            crate::tokenized::lemma_ident_end_bounds(b, cb, k + 1);
            let j = ident_end(b, cb, k);
            assert(s.subrange(d + k, d + j) =~= b.subrange(k, j));
            law_tokenize_suffix(p, cp, b, cb, j);
        } else {
            lemma_operator_token_shift(p, b, k);
            if let Some((op, end)) = operator_token(b, k) {
                law_tokenize_suffix(p, cp, b, cb, end);
            }
        }
    }
}


/// The text `a`, the character `c`, then the text `b`.
pub open spec fn joined(a: Seq<char>, c: char, b: Seq<char>) -> Seq<char> {
    a + seq![c] + b
}

proof fn lemma_is_at_prefix(a: Seq<char>, c: char, b: Seq<char>, j: int, ch: char)
    requires
        0 <= j < a.len(),
    ensures
        is_at(joined(a, c, b), j, ch) == is_at(a, j, ch),
{
    assert(joined(a, c, b)[j] == a[j]);
}

proof fn lemma_mantissa_end_prefix(a: Seq<char>, c: char, b: Seq<char>, j: int)
    requires
        0 <= j <= a.len(),
        !is_dec_digit(c),
        c != '.',
    ensures
        mantissa_end(joined(a, c, b), j) == mantissa_end(a, j),
    decreases a.len() - j,
{
    let s = joined(a, c, b);
    if j < a.len() {
        assert(s[j] == a[j]);
        if j + 1 < a.len() {
            lemma_is_at_prefix(a, c, b, j + 1, '.');
        } else {
            assert(s[j + 1] == c);
        }
        lemma_mantissa_end_prefix(a, c, b, j + 1);
    } else {
        assert(s[j] == c);
    }
}

proof fn lemma_digits_end_prefix(a: Seq<char>, c: char, b: Seq<char>, j: int)
    requires
        0 <= j <= a.len(),
        !is_dec_digit(c),
    ensures
        digits_end(joined(a, c, b), j) == digits_end(a, j),
    decreases a.len() - j,
{
    let s = joined(a, c, b);
    if j < a.len() {
        assert(s[j] == a[j]);
        lemma_digits_end_prefix(a, c, b, j + 1);
    } else {
        assert(s[j] == c);
    }
}

proof fn lemma_ident_end_prefix(
    a: Seq<char>,
    ca: Seq<CharClass>,
    c: char,
    cc: CharClass,
    b: Seq<char>,
    cb: Seq<CharClass>,
    j: int,
)
    requires
        0 <= j <= a.len(),
        ca.len() == a.len(),
        cb.len() == b.len(),
        is_separator(c, cc),
    ensures
        ident_end(joined(a, c, b), ca + seq![cc] + cb, j) == ident_end(a, ca, j),
    decreases a.len() - j,
{
    let s = joined(a, c, b);
    let cs = ca + seq![cc] + cb;
    if j < a.len() {
        assert(s[j] == a[j]);
        assert(cs[j] == ca[j]);
        lemma_ident_end_prefix(a, ca, c, cc, b, cb, j + 1);
    } else {
        assert(s[j] == c);
        assert(cs[j] == cc);
    }
}

proof fn lemma_number_token_prefix(a: Seq<char>, c: char, b: Seq<char>, i: int, cc: CharClass)
    requires
        0 <= i < a.len(),
        is_separator(c, cc),
    ensures
        number_token(joined(a, c, b), i) == number_token(a, i),
        number_token(a, i) matches Ok((_, end)) ==> end <= a.len(),
{
    let s = joined(a, c, b);
    let n = a.len() as int;
    lemma_mantissa_end_prefix(a, c, b, i);
    crate::tokenized::lemma_mantissa_end_bounds(a, i);
    let m = mantissa_end(a, i);
    if m < n {
        lemma_is_at_prefix(a, c, b, m, 'e');
        lemma_is_at_prefix(a, c, b, m, 'E');
        if m + 1 < n {
            lemma_is_at_prefix(a, c, b, m + 1, '+');
            lemma_is_at_prefix(a, c, b, m + 1, '-');
        } else {
            assert(s[m + 1] == c);
        }
    } else {
        assert(s[m] == c);
    }
    if m + 1 <= n {
        lemma_digits_end_prefix(a, c, b, m + 1);
        crate::tokenized::lemma_digits_end_bounds(a, m + 1);
    }
    if m + 2 <= n {
        lemma_digits_end_prefix(a, c, b, m + 2);
        crate::tokenized::lemma_digits_end_bounds(a, m + 2);
    }
    match number_end(a, i) {
        Err(_) => {},
        Ok(end) => {
            assert(number_end(s, i) == Ok::<int, TokenizeError>(end));
            assert(end <= n);
            assert(s.subrange(i, end) =~= a.subrange(i, end));
            assert(s.subrange(i, m) =~= a.subrange(i, m));
            if end < n {
                lemma_is_at_prefix(a, c, b, end, 'j');
            } else {
                assert(s[end] == c);
            }
        },
    }
}

proof fn lemma_operator_token_prefix(a: Seq<char>, c: char, b: Seq<char>, i: int)
    requires
        0 <= i < a.len(),
        c != '=',
    ensures
        operator_token(joined(a, c, b), i) == operator_token(a, i),
{
    let s = joined(a, c, b);
    assert(s[i] == a[i]);
    if i + 1 < a.len() {
        lemma_is_at_prefix(a, c, b, i + 1, '=');
    } else {
        assert(s[i + 1] == c);
    }
}

proof fn lemma_join_prepend(
    t: TokenView,
    ra: Result<Seq<TokenView>, TokenizeError>,
    rb: Result<Seq<TokenView>, TokenizeError>,
)
    requires
        ra matches Ok(ta) ==> ta.len() > 0,
    ensures
        join_tokens(prepend(t, ra), rb) == prepend(t, join_tokens(ra, rb)),
{
    if let Ok(ta) = ra {
        if let Ok(tb) = rb {
            assert((seq![t] + ta).drop_last() + tb =~= seq![t] + (ta.drop_last() + tb));
        }
    }
}

proof fn lemma_tokenize_joined_from(
    a: Seq<char>,
    ca: Seq<CharClass>,
    c: char,
    cc: CharClass,
    b: Seq<char>,
    cb: Seq<CharClass>,
    i: int,
)
    requires
        ca.len() == a.len(),
        cb.len() == b.len(),
        classes_consistent(ca),
        classes_consistent(cb),
        is_separator(c, cc),
        0 <= i <= a.len(),
    ensures
        tokenize_from(joined(a, c, b), ca + seq![cc] + cb, i) == join_tokens(
            tokenize_from(a, ca, i),
            tokenize_from(b, cb, 0),
        ),
    decreases a.len() - i,
{
    let s = joined(a, c, b);
    let cs = ca + seq![cc] + cb;
    let n = a.len() as int;
    let cp = ca + seq![cc];
    let p = a + seq![c];
    assert(classes_consistent(cp)) by {
        assert forall|q: int| 0 <= q < cp.len() && #[trigger] cp[q].alphabetic implies cp[q].alphanumeric by {
            if q < n {
                assert(cp[q] == ca[q]);
            }
        }
    }
    assert(s == p + b);
    assert(cs == cp + cb);
    law_tokenize_suffix(p, cp, b, cb, 0);
    if i < n {
        let ch = a[i];
        assert(s[i] == ch);
        assert(cs[i] == ca[i]);
        if i + 1 < n {
            lemma_is_at_prefix(a, c, b, i + 1, '.');
        } else {
            assert(s[i + 1] == c);
        }
        crate::tokenized::lemma_tokenize_from_eof_terminated(a, ca, i + 1);
        if ca[i].whitespace {
            lemma_tokenize_joined_from(a, ca, c, cc, b, cb, i + 1);
        } else if ch == '.' && is_at(a, i + 1, '.') {
            lemma_tokenize_joined_from(a, ca, c, cc, b, cb, i + 2);
            crate::tokenized::lemma_tokenize_from_eof_terminated(a, ca, i + 2);
            lemma_join_prepend(
                TokenView::Operator(crate::tokenized::Operators::RangeDots),
                tokenize_from(a, ca, i + 2),
                tokenize_from(b, cb, 0),
            );
        } else if is_dec_digit(ch) || ch == '.' {
            lemma_number_token_prefix(a, c, b, i, cc);
            crate::tokenized::lemma_number_token_advances(a, i);
            if let Ok((t, end)) = number_token(a, i) {
                lemma_tokenize_joined_from(a, ca, c, cc, b, cb, end);
                crate::tokenized::lemma_tokenize_from_eof_terminated(a, ca, end);
                lemma_join_prepend(t, tokenize_from(a, ca, end), tokenize_from(b, cb, 0));
            }
        } else if ca[i].alphabetic {
            lemma_ident_end_prefix(a, ca, c, cc, b, cb, i);
            crate::tokenized::lemma_ident_end_bounds(a, ca, i + 1);
            let j = ident_end(a, ca, i);
            assert(s.subrange(i, j) =~= a.subrange(i, j));
            lemma_tokenize_joined_from(a, ca, c, cc, b, cb, j);
            crate::tokenized::lemma_tokenize_from_eof_terminated(a, ca, j);
            lemma_join_prepend(
                TokenView::Identifier(a.subrange(i, j)),
                tokenize_from(a, ca, j),
                tokenize_from(b, cb, 0),
            );
        } else {
            lemma_operator_token_prefix(a, c, b, i);
            if let Some((op, end)) = operator_token(a, i) {
                lemma_tokenize_joined_from(a, ca, c, cc, b, cb, end);
                crate::tokenized::lemma_tokenize_from_eof_terminated(a, ca, end);
                lemma_join_prepend(
                    TokenView::Operator(op),
                    tokenize_from(a, ca, end),
                    tokenize_from(b, cb, 0),
                );
            }
        }
    } else {
        assert(s[n] == c);
        assert(cs[n] == cc);
        assert(s.len() == p.len() + b.len());
        if let Ok(tb) = tokenize_from(b, cb, 0) {
            assert(seq![TokenView::EOF].drop_last() + tb =~= tb);
        }
    }
}

/// A whitespace character separates tokens: the tokens of `a`, `c`, `b`
/// (with `c` a separator) are those of `a` without its `EOF`, then those of
/// `b`; or the first error of the two.
pub proof fn law_whitespace_separates_tokens(
    a: Seq<char>,
    ca: Seq<CharClass>,
    c: char,
    cc: CharClass,
    b: Seq<char>,
    cb: Seq<CharClass>,
)
    requires
        ca.len() == a.len(),
        cb.len() == b.len(),
        classes_consistent(ca),
        classes_consistent(cb),
        is_separator(c, cc),
    ensures
        tokenize_from(joined(a, c, b), ca + seq![cc] + cb, 0) == join_tokens(
            tokenize_from(a, ca, 0),
            tokenize_from(b, cb, 0),
        ),
{
    lemma_tokenize_joined_from(a, ca, c, cc, b, cb, 0);
}


/// The same law over texts, with the classes that std gives their
/// characters.
pub proof fn law_separator_splits_text(a: Seq<char>, c: char, b: Seq<char>)
    requires
        classes_consistent(classes_of(joined(a, c, b))),
        is_separator(c, class_of(c)),
    ensures
        tokenize_spec(joined(a, c, b)) == join_tokens(tokenize_spec(a), tokenize_spec(b)),
{
    let s = joined(a, c, b);
    let n = a.len() as int;
    let cs = classes_of(s);
    assert(cs =~= classes_of(a) + seq![class_of(c)] + classes_of(b)) by {
        assert forall|q: int| 0 <= q < cs.len() implies cs[q] == (classes_of(a) + seq![class_of(c)]
            + classes_of(b))[q] by {
            if q < n {
                assert(s[q] == a[q]);
            } else if q == n {
                assert(s[q] == c);
            } else {
                assert(s[q] == b[q - n - 1]);
            }
        }
    }
    assert(classes_consistent(classes_of(a))) by {
        assert forall|q: int| 0 <= q < a.len() && #[trigger] classes_of(a)[q].alphabetic implies classes_of(
            a,
        )[q].alphanumeric by {
            assert(cs[q] == classes_of(a)[q]);
        }
    }
    assert(classes_consistent(classes_of(b))) by {
        assert forall|q: int| 0 <= q < b.len() && #[trigger] classes_of(b)[q].alphabetic implies classes_of(
            b,
        )[q].alphanumeric by {
            assert(cs[n + 1 + q] == classes_of(b)[q]);
        }
    }
    law_whitespace_separates_tokens(a, classes_of(a), c, class_of(c), b, classes_of(b));
}


/// An operator that the parser treats as a plain infix operator: it has an
/// infix precedence and is neither `..` nor `[`.
pub open spec fn plain_infix(op: Operators) -> bool {
    ast::infix_precedence(op) is Some && op != Operators::RangeDots && op != Operators::LBracket
}

/// The precedence above which operators bind into the right operand of `op`:
/// one less than its own when it groups to the right.
pub open spec fn right_operand_precedence(op: Operators) -> u8 {
    let p = ast::infix_precedence(op)->Some_0;
    if ast::right_associative(op) {
        (p - 1) as u8
    } else {
        p
    }
}

/// `op` applied to `l` and `r`.
pub open spec fn bin(op: Operators, l: NodeView, r: NodeView) -> NodeView {
    NodeView::BinOp { op, left: Box::new(l), right: Box::new(r) }
}

/// The tokens of `a op1 b op2 c`.
pub open spec fn two_operators(a: i64, op1: Operators, b: i64, op2: Operators, c: i64) -> Seq<
    TokenView,
> {
    seq![
        TokenView::Integer(a),
        TokenView::Operator(op1),
        TokenView::Integer(b),
        TokenView::Operator(op2),
        TokenView::Integer(c),
        TokenView::EOF,
    ]
}

/// Operators group by the precedence table: in `a op1 b op2 c`, `op2` takes
/// `a op1 b` as its left operand when its precedence is at most the one that
/// `op1` gives its right operand, else `op1` takes `b op2 c` as its right
/// operand. So `*` binds tighter than `+`, `-` groups to the left, `^` and
/// `=` group to the right.
pub proof fn law_infix_grouping(a: i64, op1: Operators, b: i64, op2: Operators, c: i64)
    requires
        plain_infix(op1),
        plain_infix(op2),
    ensures
        parsed::parse_spec(two_operators(a, op1, b, op2, c), 0) == (
            Ok::<NodeView, parsed::ParseErrorView>(
                if ast::infix_precedence(op2)->Some_0 <= right_operand_precedence(op1) {
                    bin(op2, bin(op1, NodeView::Integer(a), NodeView::Integer(b)), NodeView::Integer(c))
                } else {
                    bin(op1, NodeView::Integer(a), bin(op2, NodeView::Integer(b), NodeView::Integer(c)))
                },
            ),
            5int,
        ),
{
    let t = two_operators(a, op1, b, op2, c);
    let p1 = ast::infix_precedence(op1)->Some_0;
    let p2 = ast::infix_precedence(op2)->Some_0;
    let rp1 = right_operand_precedence(op1);
    let rp2 = right_operand_precedence(op2);
    let ia = NodeView::Integer(a);
    let ib = NodeView::Integer(b);
    let ic = NodeView::Integer(c);
    assert(parsed::tok(t, 1) == TokenView::Operator(op1));
    assert(parsed::tok(t, 3) == TokenView::Operator(op2));
    assert(parsed::tok(t, 5) == TokenView::EOF);
    // `c` alone, at any precedence below that of `op2`.
    assert(parsed::prefix_spec(t, 4) == (Ok::<NodeView, parsed::ParseErrorView>(ic), 5int));
    assert(parsed::expr_loop_spec(t, 5, rp2, ic) == (Ok::<NodeView, parsed::ParseErrorView>(ic), 5int));
    assert(parsed::expr_spec(t, 4, rp2) == (Ok::<NodeView, parsed::ParseErrorView>(ic), 5int));
    assert(parsed::prefix_spec(t, 2) == (Ok::<NodeView, parsed::ParseErrorView>(ib), 3int));
    assert(parsed::prefix_spec(t, 0) == (Ok::<NodeView, parsed::ParseErrorView>(ia), 1int));
    if p2 <= rp1 {
        assert(parsed::expr_loop_spec(t, 3, rp1, ib) == (Ok::<NodeView, parsed::ParseErrorView>(ib), 3int));
        assert(parsed::expr_spec(t, 2, rp1) == (Ok::<NodeView, parsed::ParseErrorView>(ib), 3int));
        let l = bin(op1, ia, ib);
        let whole = bin(op2, l, ic);
        assert(parsed::expr_loop_spec(t, 5, 0, whole) == (Ok::<NodeView, parsed::ParseErrorView>(whole), 5int));
        assert(parsed::expr_loop_spec(t, 3, 0, l) == (Ok::<NodeView, parsed::ParseErrorView>(whole), 5int));
        assert(parsed::expr_loop_spec(t, 1, 0, ia) == (Ok::<NodeView, parsed::ParseErrorView>(whole), 5int));
    } else {
        let r = bin(op2, ib, ic);
        assert(parsed::expr_loop_spec(t, 5, rp1, r) == (Ok::<NodeView, parsed::ParseErrorView>(r), 5int));
        assert(parsed::expr_loop_spec(t, 3, rp1, ib) == (Ok::<NodeView, parsed::ParseErrorView>(r), 5int));
        assert(parsed::expr_spec(t, 2, rp1) == (Ok::<NodeView, parsed::ParseErrorView>(r), 5int));
        let whole = bin(op1, ia, r);
        assert(parsed::expr_loop_spec(t, 5, 0, whole) == (Ok::<NodeView, parsed::ParseErrorView>(whole), 5int));
        assert(parsed::expr_loop_spec(t, 1, 0, ia) == (Ok::<NodeView, parsed::ParseErrorView>(whole), 5int));
    }
    assert(parsed::expr_spec(t, 0, 0) == parsed::expr_loop_spec(t, 1, 0, ia));
}


/// The tokens of `u a op b`, with `u` a prefix operator.
pub open spec fn prefixed_operand(u: Operators, a: i64, op: Operators, b: i64) -> Seq<TokenView> {
    seq![
        TokenView::Operator(u),
        TokenView::Integer(a),
        TokenView::Operator(op),
        TokenView::Integer(b),
        TokenView::EOF,
    ]
}

/// A prefix operator binds by its own precedence: in `u a op b`, `u` applies
/// to `a` alone when `op` binds no tighter than `u`, else to `a op b`. So
/// `-a*b` is `(-a)*b` and `-a^b` is `-(a^b)`.
pub proof fn law_prefix_grouping(u: Operators, a: i64, op: Operators, b: i64)
    requires
        ast::prefix_precedence(u) is Some,
        plain_infix(op),
    ensures
        parsed::parse_spec(prefixed_operand(u, a, op, b), 0) == (
            Ok::<NodeView, parsed::ParseErrorView>(
                if ast::infix_precedence(op)->Some_0 <= ast::prefix_precedence(u)->Some_0 {
                    bin(
                        op,
                        NodeView::UnaryOp { op: u, child: Box::new(NodeView::Integer(a)) },
                        NodeView::Integer(b),
                    )
                } else {
                    NodeView::UnaryOp {
                        op: u,
                        child: Box::new(bin(op, NodeView::Integer(a), NodeView::Integer(b))),
                    }
                },
            ),
            4int,
        ),
{
    let t = prefixed_operand(u, a, op, b);
    let pu = ast::prefix_precedence(u)->Some_0;
    let p = ast::infix_precedence(op)->Some_0;
    let rp = right_operand_precedence(op);
    let ia = NodeView::Integer(a);
    let ib = NodeView::Integer(b);
    assert(parsed::tok(t, 0) == TokenView::Operator(u));
    assert(parsed::tok(t, 2) == TokenView::Operator(op));
    assert(parsed::tok(t, 4) == TokenView::EOF);
    assert(parsed::prefix_spec(t, 3) == (Ok::<NodeView, parsed::ParseErrorView>(ib), 4int));
    assert(parsed::expr_loop_spec(t, 4, rp, ib) == (Ok::<NodeView, parsed::ParseErrorView>(ib), 4int));
    assert(parsed::expr_spec(t, 3, rp) == (Ok::<NodeView, parsed::ParseErrorView>(ib), 4int));
    assert(parsed::prefix_spec(t, 1) == (Ok::<NodeView, parsed::ParseErrorView>(ia), 2int));
    if p <= pu {
        assert(parsed::expr_loop_spec(t, 2, pu, ia) == (Ok::<NodeView, parsed::ParseErrorView>(ia), 2int));
        assert(parsed::expr_spec(t, 1, pu) == (Ok::<NodeView, parsed::ParseErrorView>(ia), 2int));
        let un = NodeView::UnaryOp { op: u, child: Box::new(ia) };
        assert(parsed::prefix_spec(t, 0) == (Ok::<NodeView, parsed::ParseErrorView>(un), 2int));
        let whole = bin(op, un, ib);
        assert(parsed::expr_loop_spec(t, 4, 0, whole) == (Ok::<NodeView, parsed::ParseErrorView>(whole), 4int));
        assert(parsed::expr_loop_spec(t, 2, 0, un) == (Ok::<NodeView, parsed::ParseErrorView>(whole), 4int));
        assert(parsed::expr_spec(t, 0, 0) == parsed::expr_loop_spec(t, 2, 0, un));
    } else {
        let r = bin(op, ia, ib);
        assert(parsed::expr_loop_spec(t, 4, pu, r) == (Ok::<NodeView, parsed::ParseErrorView>(r), 4int));
        assert(parsed::expr_loop_spec(t, 2, pu, ia) == (Ok::<NodeView, parsed::ParseErrorView>(r), 4int));
        assert(parsed::expr_spec(t, 1, pu) == (Ok::<NodeView, parsed::ParseErrorView>(r), 4int));
        let whole = NodeView::UnaryOp { op: u, child: Box::new(r) };
        assert(parsed::prefix_spec(t, 0) == (Ok::<NodeView, parsed::ParseErrorView>(whole), 4int));
        assert(parsed::expr_loop_spec(t, 4, 0, whole) == (Ok::<NodeView, parsed::ParseErrorView>(whole), 4int));
        assert(parsed::expr_spec(t, 0, 0) == parsed::expr_loop_spec(t, 4, 0, whole));
    }
}

/// The tokens of `(a op1 b) op2 c`.
pub open spec fn parenthesized_left(a: i64, op1: Operators, b: i64, op2: Operators, c: i64) -> Seq<
    TokenView,
> {
    seq![
        TokenView::Operator(Operators::LParen),
        TokenView::Integer(a),
        TokenView::Operator(op1),
        TokenView::Integer(b),
        TokenView::Operator(Operators::RParen),
        TokenView::Operator(op2),
        TokenView::Integer(c),
        TokenView::EOF,
    ]
}

/// Parentheses override the precedence table: `(a op1 b) op2 c` groups
/// `a op1 b` first, whatever the two operators.
pub proof fn law_parentheses_group(a: i64, op1: Operators, b: i64, op2: Operators, c: i64)
    requires
        plain_infix(op1),
        plain_infix(op2),
    ensures
        parsed::parse_spec(parenthesized_left(a, op1, b, op2, c), 0) == (
            Ok::<NodeView, parsed::ParseErrorView>(
                bin(op2, bin(op1, NodeView::Integer(a), NodeView::Integer(b)), NodeView::Integer(c)),
            ),
            7int,
        ),
{
    let t = parenthesized_left(a, op1, b, op2, c);
    let rp1 = right_operand_precedence(op1);
    let rp2 = right_operand_precedence(op2);
    let ia = NodeView::Integer(a);
    let ib = NodeView::Integer(b);
    let ic = NodeView::Integer(c);
    let inner = bin(op1, ia, ib);
    let whole = bin(op2, inner, ic);
    assert(parsed::tok(t, 0) == TokenView::Operator(Operators::LParen));
    assert(parsed::tok(t, 2) == TokenView::Operator(op1));
    assert(parsed::tok(t, 4) == TokenView::Operator(Operators::RParen));
    assert(parsed::tok(t, 5) == TokenView::Operator(op2));
    assert(parsed::tok(t, 7) == TokenView::EOF);
    assert(parsed::prefix_spec(t, 1) == (Ok::<NodeView, parsed::ParseErrorView>(ia), 2int));
    assert(parsed::prefix_spec(t, 3) == (Ok::<NodeView, parsed::ParseErrorView>(ib), 4int));
    assert(parsed::expr_loop_spec(t, 4, rp1, ib) == (Ok::<NodeView, parsed::ParseErrorView>(ib), 4int));
    assert(parsed::expr_spec(t, 3, rp1) == (Ok::<NodeView, parsed::ParseErrorView>(ib), 4int));
    assert(parsed::expr_loop_spec(t, 4, 0, inner) == (Ok::<NodeView, parsed::ParseErrorView>(inner), 4int));
    assert(parsed::expr_loop_spec(t, 2, 0, ia) == (Ok::<NodeView, parsed::ParseErrorView>(inner), 4int));
    assert(parsed::expr_spec(t, 1, 0) == (Ok::<NodeView, parsed::ParseErrorView>(inner), 4int));
    assert(parsed::prefix_spec(t, 0) == (Ok::<NodeView, parsed::ParseErrorView>(inner), 5int));
    assert(parsed::prefix_spec(t, 6) == (Ok::<NodeView, parsed::ParseErrorView>(ic), 7int));
    assert(parsed::expr_loop_spec(t, 7, rp2, ic) == (Ok::<NodeView, parsed::ParseErrorView>(ic), 7int));
    assert(parsed::expr_spec(t, 6, rp2) == (Ok::<NodeView, parsed::ParseErrorView>(ic), 7int));
    assert(parsed::expr_loop_spec(t, 7, 0, whole) == (Ok::<NodeView, parsed::ParseErrorView>(whole), 7int));
    assert(parsed::expr_loop_spec(t, 5, 0, inner) == (Ok::<NodeView, parsed::ParseErrorView>(whole), 7int));
    assert(parsed::expr_spec(t, 0, 0) == parsed::expr_loop_spec(t, 5, 0, inner));
}

/// What the tokenizer returns can be handed to the parser: it ends with
/// `EOF`.
pub proof fn law_tokens_feed_parser(ts: Seq<TokenView>)
    requires
        crate::tokenized::eof_terminated(ts),
    ensures
        parsed::tokens_well_formed(ts),
{
    assert(ts[ts.len() - 1] is EOF);
}

/// A step forward never passes the first `EOF`: from a position before it
/// the step moves on by one, and on it the step stays. So every position
/// that parsing reaches from the start lies at or before the first `EOF`,
/// inside the tokens.
pub proof fn law_advance_stops_at_eof(t: Seq<TokenView>, p: int)
    requires
        parsed::tokens_well_formed(t),
        0 <= p <= parsed::first_eof(t),
    ensures
        parsed::advance_pos(t, p) == if p < parsed::first_eof(t) {
            p + 1
        } else {
            p
        },
        parsed::advance_pos(t, p) <= parsed::first_eof(t) < t.len(),
{
    parsed::lemma_first_eof(t);
    if p < parsed::first_eof(t) {
        assert(!(t[p] is EOF));
    }
}

/// The binding levels of the binary operators in the grammar, from the
/// loosest to the tightest: `|`; `&`; `=` and the comparisons; `..`; `+` and
/// `-`; `*` and `/`; `^`. Other operators are not binary (level 0).
pub open spec fn binding_level(op: Operators) -> int {
    match op {
        Operators::Pipe => 1,
        Operators::Ampersand => 2,
        Operators::Equal | Operators::DoubleEqual | Operators::NotEqual | Operators::LessThan
        | Operators::GreaterThan | Operators::LessEqual | Operators::GreaterEqual => 3,
        Operators::RangeDots => 4,
        Operators::Plus | Operators::Minus => 5,
        Operators::Star | Operators::Slash => 6,
        Operators::Caret => 7,
        _ => 0,
    }
}

/// The binary operators that group to the right: `^` and `=`.
pub open spec fn groups_to_the_right(op: Operators) -> bool {
    op == Operators::Caret || op == Operators::Equal
}

/// A binary operator that joins two operands into one node: any with a
/// binding level but `..`, which builds a range.
pub open spec fn binary_operator(op: Operators) -> bool {
    binding_level(op) > 0 && op != Operators::RangeDots
}

/// In `a op1 b op2 c`, `op2` takes `a op1 b` as its left operand: `op2`
/// binds looser than `op1`, or as tightly while `op1` groups to the left.
pub open spec fn groups_left(op1: Operators, op2: Operators) -> bool {
    binding_level(op2) < binding_level(op1) || (binding_level(op2) == binding_level(op1)
        && !groups_to_the_right(op1))
}

/// A token after which an operand ends: `EOF`, `,`, `;`, `)` or `]`.
pub open spec fn ends_operand(x: TokenView) -> bool {
    x is EOF || x == TokenView::Operator(Operators::Comma) || x == TokenView::Operator(
        Operators::Semicolon,
    ) || x == TokenView::Operator(Operators::RParen) || x == TokenView::Operator(
        Operators::RBracket,
    )
}

/// How the precedence table of the parser relates to the binding levels.
proof fn lemma_levels(op1: Operators, op2: Operators)
    requires
        binary_operator(op1),
        binary_operator(op2),
    ensures
        plain_infix(op1),
        plain_infix(op2),
        groups_left(op1, op2) <==> ast::infix_precedence(op2)->Some_0 <= right_operand_precedence(op1),
        (ast::infix_precedence(op1)->Some_0 > 4) <==> binding_level(op1) > binding_level(
            Operators::RangeDots,
        ),
        (right_operand_precedence(op1) >= 7) <==> binding_level(op1) >= binding_level(
            Operators::Star,
        ),
        (ast::infix_precedence(op1)->Some_0 <= 8) <==> binding_level(op1) < binding_level(
            Operators::Caret,
        ),
{
}

/// An integer followed by a token that ends an operand is that integer
/// alone, at any precedence.
proof fn lemma_integer_alone(t: Seq<TokenView>, p: int, a: i64, prec: u8)
    requires
        0 <= p,
        p + 1 < t.len(),
        t[p] == TokenView::Integer(a),
        ends_operand(t[p + 1]),
    ensures
        parsed::expr_spec(t, p, prec) == (Ok::<NodeView, parsed::ParseErrorView>(NodeView::Integer(a)), p + 1),
{
    let ia = NodeView::Integer(a);
    assert(parsed::tok(t, p) == TokenView::Integer(a));
    assert(parsed::tok(t, p + 1) == t[p + 1]);
    assert(parsed::prefix_spec(t, p) == (Ok::<NodeView, parsed::ParseErrorView>(ia), p + 1));
    assert(!parsed::implicit_multiplication(t, p + 1));
    assert(parsed::expr_loop_spec(t, p + 1, prec, ia) == (Ok::<NodeView, parsed::ParseErrorView>(ia), p + 1));
}

/// `a op b` followed by a token that ends an operand is `a op b`, at any
/// precedence looser than that of `op`.
proof fn lemma_binop_alone(t: Seq<TokenView>, p: int, a: i64, op: Operators, b: i64, prec: u8)
    requires
        0 <= p,
        p + 3 < t.len(),
        t[p] == TokenView::Integer(a),
        t[p + 1] == TokenView::Operator(op),
        t[p + 2] == TokenView::Integer(b),
        ends_operand(t[p + 3]),
        plain_infix(op),
        prec < ast::infix_precedence(op)->Some_0,
    ensures
        parsed::expr_spec(t, p, prec) == (
            Ok::<NodeView, parsed::ParseErrorView>(bin(op, NodeView::Integer(a), NodeView::Integer(b))),
            p + 3,
        ),
{
    let ia = NodeView::Integer(a);
    let ib = NodeView::Integer(b);
    let n = bin(op, ia, ib);
    lemma_integer_alone(t, p + 2, b, right_operand_precedence(op));
    assert(parsed::tok(t, p) == TokenView::Integer(a));
    assert(parsed::tok(t, p + 1) == TokenView::Operator(op));
    assert(parsed::tok(t, p + 3) == t[p + 3]);
    assert(parsed::prefix_spec(t, p) == (Ok::<NodeView, parsed::ParseErrorView>(ia), p + 1));
    assert(!parsed::implicit_multiplication(t, p + 1));
    assert(!parsed::implicit_multiplication(t, p + 3));
    assert(parsed::expr_loop_spec(t, p + 3, prec, n) == (Ok::<NodeView, parsed::ParseErrorView>(n), p + 3));
    assert(parsed::expr_loop_spec(t, p + 1, prec, ia) == (Ok::<NodeView, parsed::ParseErrorView>(n), p + 3));
}

/// Binary operators group by their binding levels: in `a op1 b op2 c`,
/// `op2` takes `a op1 b` as its left operand when it binds looser than
/// `op1`, or as tightly while `op1` groups to the left; else `op1` takes
/// `b op2 c` as its right operand. So `a > b & c` is `(a > b) & c`,
/// `a & b > c` is `a & (b > c)`, `a | b & c` is `a | (b & c)`, `a + b * c` is
/// `a + (b * c)`, `a - b - c` is `(a - b) - c` and `a ^ b ^ c` is
/// `a ^ (b ^ c)`.
pub proof fn law_binding_levels(a: i64, op1: Operators, b: i64, op2: Operators, c: i64)
    requires
        binary_operator(op1),
        binary_operator(op2),
    ensures
        parsed::parse_spec(two_operators(a, op1, b, op2, c), 0) == (
            Ok::<NodeView, parsed::ParseErrorView>(
                if groups_left(op1, op2) {
                    bin(op2, bin(op1, NodeView::Integer(a), NodeView::Integer(b)), NodeView::Integer(c))
                } else {
                    bin(op1, NodeView::Integer(a), bin(op2, NodeView::Integer(b), NodeView::Integer(c)))
                },
            ),
            5int,
        ),
{
    lemma_levels(op1, op2);
    law_infix_grouping(a, op1, b, op2, c);
}

/// The tokens of `a op b (c)`.
pub open spec fn juxtaposed_tokens(a: i64, op: Operators, b: i64, c: i64) -> Seq<TokenView> {
    seq![
        TokenView::Integer(a),
        TokenView::Operator(op),
        TokenView::Integer(b),
        TokenView::Operator(Operators::LParen),
        TokenView::Integer(c),
        TokenView::Operator(Operators::RParen),
        TokenView::EOF,
    ]
}

/// Two adjacent operands multiply, and bind exactly as tightly as `*`: in
/// `a op b (c)`, the product `b * c` is the right operand of `op` when `op`
/// binds looser than `*`; else `a op b` is multiplied by `c`. So `1 + 2(x)`
/// is `1 + (2 * x)`, and `a / b (c)` is `(a / b) * c`.
pub proof fn law_implicit_product_binds_like_star(a: i64, op: Operators, b: i64, c: i64)
    requires
        binary_operator(op),
    ensures
        parsed::parse_spec(juxtaposed_tokens(a, op, b, c), 0) == (
            Ok::<NodeView, parsed::ParseErrorView>(
                if binding_level(op) < binding_level(Operators::Star) {
                    bin(op, NodeView::Integer(a), bin(Operators::Star, NodeView::Integer(b), NodeView::Integer(c)))
                } else {
                    bin(Operators::Star, bin(op, NodeView::Integer(a), NodeView::Integer(b)), NodeView::Integer(c))
                },
            ),
            6int,
        ),
{
    lemma_levels(op, op);
    let t = juxtaposed_tokens(a, op, b, c);
    let rp = right_operand_precedence(op);
    let ia = NodeView::Integer(a);
    let ib = NodeView::Integer(b);
    let ic = NodeView::Integer(c);
    assert(parsed::tok(t, 0) == TokenView::Integer(a));
    assert(parsed::tok(t, 1) == TokenView::Operator(op));
    assert(parsed::tok(t, 2) == TokenView::Integer(b));
    assert(parsed::tok(t, 3) == TokenView::Operator(Operators::LParen));
    assert(parsed::tok(t, 5) == TokenView::Operator(Operators::RParen));
    assert(parsed::tok(t, 6) == TokenView::EOF);
    lemma_integer_alone(t, 4, c, 0);
    // `(c)` is `c`.
    assert(parsed::prefix_spec(t, 3) == (Ok::<NodeView, parsed::ParseErrorView>(ic), 6int));
    assert(parsed::implicit_multiplication(t, 3));
    assert(!parsed::implicit_multiplication(t, 6));
    assert(parsed::expr_loop_spec(t, 6, 7, ic) == (Ok::<NodeView, parsed::ParseErrorView>(ic), 6int));
    assert(parsed::expr_spec(t, 3, 7) == (Ok::<NodeView, parsed::ParseErrorView>(ic), 6int));
    assert(parsed::prefix_spec(t, 2) == (Ok::<NodeView, parsed::ParseErrorView>(ib), 3int));
    assert(parsed::prefix_spec(t, 0) == (Ok::<NodeView, parsed::ParseErrorView>(ia), 1int));
    if rp >= 7 {
        assert(parsed::expr_loop_spec(t, 3, rp, ib) == (Ok::<NodeView, parsed::ParseErrorView>(ib), 3int));
        assert(parsed::expr_spec(t, 2, rp) == (Ok::<NodeView, parsed::ParseErrorView>(ib), 3int));
        let l = bin(op, ia, ib);
        let whole = bin(Operators::Star, l, ic);
        assert(parsed::expr_loop_spec(t, 6, 0, whole) == (Ok::<NodeView, parsed::ParseErrorView>(whole), 6int));
        assert(parsed::expr_loop_spec(t, 3, 0, l) == (Ok::<NodeView, parsed::ParseErrorView>(whole), 6int));
        assert(parsed::expr_loop_spec(t, 1, 0, ia) == (Ok::<NodeView, parsed::ParseErrorView>(whole), 6int));
    } else {
        let r = bin(Operators::Star, ib, ic);
        assert(parsed::expr_loop_spec(t, 6, rp, r) == (Ok::<NodeView, parsed::ParseErrorView>(r), 6int));
        assert(parsed::expr_loop_spec(t, 3, rp, ib) == (Ok::<NodeView, parsed::ParseErrorView>(r), 6int));
        assert(parsed::expr_spec(t, 2, rp) == (Ok::<NodeView, parsed::ParseErrorView>(r), 6int));
        let whole = bin(op, ia, r);
        assert(parsed::expr_loop_spec(t, 6, 0, whole) == (Ok::<NodeView, parsed::ParseErrorView>(whole), 6int));
        assert(parsed::expr_loop_spec(t, 1, 0, ia) == (Ok::<NodeView, parsed::ParseErrorView>(whole), 6int));
    }
    assert(parsed::expr_spec(t, 0, 0) == parsed::expr_loop_spec(t, 1, 0, ia));
}

/// The tokens of `a .. b op c`.
pub open spec fn range_tokens(a: i64, b: i64, op: Operators, c: i64) -> Seq<TokenView> {
    seq![
        TokenView::Integer(a),
        TokenView::Operator(Operators::RangeDots),
        TokenView::Integer(b),
        TokenView::Operator(op),
        TokenView::Integer(c),
        TokenView::EOF,
    ]
}

/// The end of a range takes every operator that binds tighter than `..`: in
/// `a .. b op c`, the end is `b op c` when `op` binds tighter than `..`
/// (arithmetic and `^`); else the range `a .. b` is the left operand of
/// `op`. So `1..n+1` is the range from 1 to `n+1`, and `1..n < m` compares
/// the range `1..n` with `m`.
pub proof fn law_range_end_binds_tighter_operators(a: i64, b: i64, op: Operators, c: i64)
    requires
        binary_operator(op),
    ensures
        parsed::parse_spec(range_tokens(a, b, op, c), 0) == (
            Ok::<NodeView, parsed::ParseErrorView>(
                if binding_level(op) > binding_level(Operators::RangeDots) {
                    NodeView::Range {
                        start: Box::new(NodeView::Integer(a)),
                        end: Box::new(bin(op, NodeView::Integer(b), NodeView::Integer(c))),
                        step: None,
                    }
                } else {
                    bin(
                        op,
                        NodeView::Range {
                            start: Box::new(NodeView::Integer(a)),
                            end: Box::new(NodeView::Integer(b)),
                            step: None,
                        },
                        NodeView::Integer(c),
                    )
                },
            ),
            5int,
        ),
{
    lemma_levels(op, op);
    let t = range_tokens(a, b, op, c);
    let opp = ast::infix_precedence(op)->Some_0;
    let rp = right_operand_precedence(op);
    let ia = NodeView::Integer(a);
    let ib = NodeView::Integer(b);
    let ic = NodeView::Integer(c);
    assert(parsed::tok(t, 0) == TokenView::Integer(a));
    assert(parsed::tok(t, 1) == TokenView::Operator(Operators::RangeDots));
    assert(parsed::tok(t, 2) == TokenView::Integer(b));
    assert(parsed::tok(t, 3) == TokenView::Operator(op));
    assert(parsed::tok(t, 5) == TokenView::EOF);
    lemma_integer_alone(t, 4, c, rp);
    assert(parsed::prefix_spec(t, 0) == (Ok::<NodeView, parsed::ParseErrorView>(ia), 1int));
    assert(parsed::prefix_spec(t, 2) == (Ok::<NodeView, parsed::ParseErrorView>(ib), 3int));
    assert(!parsed::implicit_multiplication(t, 1));
    assert(!parsed::implicit_multiplication(t, 3));
    assert(!parsed::implicit_multiplication(t, 5));
    if opp > 4 {
        let end = bin(op, ib, ic);
        assert(parsed::expr_loop_spec(t, 5, 4, end) == (Ok::<NodeView, parsed::ParseErrorView>(end), 5int));
        assert(parsed::expr_loop_spec(t, 3, 4, ib) == (Ok::<NodeView, parsed::ParseErrorView>(end), 5int));
        assert(parsed::expr_spec(t, 2, 4) == (Ok::<NodeView, parsed::ParseErrorView>(end), 5int));
        let rg = NodeView::Range { start: Box::new(ia), end: Box::new(end), step: None };
        assert(parsed::expr_loop_spec(t, 5, 0, rg) == (Ok::<NodeView, parsed::ParseErrorView>(rg), 5int));
        assert(parsed::range_spec(t, 2, 0, ia) == (Ok::<NodeView, parsed::ParseErrorView>(rg), 5int));
        assert(parsed::expr_loop_spec(t, 1, 0, ia) == (Ok::<NodeView, parsed::ParseErrorView>(rg), 5int));
    } else {
        assert(parsed::expr_loop_spec(t, 3, 4, ib) == (Ok::<NodeView, parsed::ParseErrorView>(ib), 3int));
        assert(parsed::expr_spec(t, 2, 4) == (Ok::<NodeView, parsed::ParseErrorView>(ib), 3int));
        let rg = NodeView::Range { start: Box::new(ia), end: Box::new(ib), step: None };
        let whole = bin(op, rg, ic);
        assert(parsed::expr_loop_spec(t, 5, 0, whole) == (Ok::<NodeView, parsed::ParseErrorView>(whole), 5int));
        assert(parsed::expr_loop_spec(t, 3, 0, rg) == (Ok::<NodeView, parsed::ParseErrorView>(whole), 5int));
        assert(parsed::range_spec(t, 2, 0, ia) == (Ok::<NodeView, parsed::ParseErrorView>(whole), 5int));
        assert(parsed::expr_loop_spec(t, 1, 0, ia) == (Ok::<NodeView, parsed::ParseErrorView>(whole), 5int));
    }
    assert(parsed::expr_spec(t, 0, 0) == parsed::expr_loop_spec(t, 1, 0, ia));
}

/// The tokens of `int[v, a op1 b, c op2 d](e op3 f)`.
pub open spec fn definite_integral_tokens(
    v: Seq<char>,
    a: i64,
    op1: Operators,
    b: i64,
    c: i64,
    op2: Operators,
    d: i64,
    e: i64,
    op3: Operators,
    f: i64,
) -> Seq<TokenView> {
    seq![
        TokenView::Identifier("int"@),
        TokenView::Operator(Operators::LBracket),
        TokenView::Identifier(v),
        TokenView::Operator(Operators::Comma),
        TokenView::Integer(a),
        TokenView::Operator(op1),
        TokenView::Integer(b),
        TokenView::Operator(Operators::Comma),
        TokenView::Integer(c),
        TokenView::Operator(op2),
        TokenView::Integer(d),
        TokenView::Operator(Operators::RBracket),
        TokenView::Operator(Operators::LParen),
        TokenView::Integer(e),
        TokenView::Operator(op3),
        TokenView::Integer(f),
        TokenView::Operator(Operators::RParen),
        TokenView::EOF,
    ]
}

/// Each bound and the body of a definite integral is a whole expression,
/// whatever binary operators it holds: `int[v, a op1 b, c op2 d](e op3 f)`
/// integrates `e op3 f` over `v` from `a op1 b` to `c op2 d`. So
/// `int[x, 0, 2*pi](..)` ends at `2*pi`, and `int[x, 0, n+1](..)` at `n+1`.
#[verifier::rlimit(100)]
pub proof fn law_integral_bounds_are_whole_expressions(
    v: Seq<char>,
    a: i64,
    op1: Operators,
    b: i64,
    c: i64,
    op2: Operators,
    d: i64,
    e: i64,
    op3: Operators,
    f: i64,
)
    requires
        binary_operator(op1),
        binary_operator(op2),
        binary_operator(op3),
    ensures
        parsed::parse_spec(definite_integral_tokens(v, a, op1, b, c, op2, d, e, op3, f), 0) == (
            Ok::<NodeView, parsed::ParseErrorView>(
                NodeView::DefIntegral {
                    var: v,
                    start: Box::new(bin(op1, NodeView::Integer(a), NodeView::Integer(b))),
                    end: Box::new(bin(op2, NodeView::Integer(c), NodeView::Integer(d))),
                    body: Box::new(bin(op3, NodeView::Integer(e), NodeView::Integer(f))),
                },
            ),
            17int,
        ),
{
    lemma_calculus_names();
    lemma_levels(op1, op2);
    lemma_levels(op3, op3);
    let t = definite_integral_tokens(v, a, op1, b, c, op2, d, e, op3, f);
    let start = bin(op1, NodeView::Integer(a), NodeView::Integer(b));
    let end = bin(op2, NodeView::Integer(c), NodeView::Integer(d));
    let body = bin(op3, NodeView::Integer(e), NodeView::Integer(f));
    let whole = NodeView::DefIntegral {
        var: v,
        start: Box::new(start),
        end: Box::new(end),
        body: Box::new(body),
    };
    assert(parsed::tok(t, 0) == TokenView::Identifier("int"@));
    assert(parsed::tok(t, 1) == TokenView::Operator(Operators::LBracket));
    assert(parsed::tok(t, 2) == TokenView::Identifier(v));
    assert(parsed::tok(t, 3) == TokenView::Operator(Operators::Comma));
    assert(parsed::tok(t, 7) == TokenView::Operator(Operators::Comma));
    assert(parsed::tok(t, 11) == TokenView::Operator(Operators::RBracket));
    assert(parsed::tok(t, 12) == TokenView::Operator(Operators::LParen));
    assert(parsed::tok(t, 16) == TokenView::Operator(Operators::RParen));
    assert(parsed::tok(t, 17) == TokenView::EOF);
    lemma_binop_alone(t, 4, a, op1, b, 0);
    lemma_binop_alone(t, 8, c, op2, d, 0);
    lemma_binop_alone(t, 13, e, op3, f, 0);
    assert(parsed::integral_spec(t, 3, v) == (Ok::<NodeView, parsed::ParseErrorView>(whole), 17int));
    assert(parsed::calculus_spec(t, 2, "int"@) == (Ok::<NodeView, parsed::ParseErrorView>(whole), 17int));
    assert(parsed::identifier_spec(t, 1, "int"@) == (Ok::<NodeView, parsed::ParseErrorView>(whole), 17int));
    assert(parsed::prefix_spec(t, 0) == (Ok::<NodeView, parsed::ParseErrorView>(whole), 17int));
    assert(!parsed::implicit_multiplication(t, 17));
    assert(parsed::expr_loop_spec(t, 17, 0, whole) == (Ok::<NodeView, parsed::ParseErrorView>(whole), 17int));
    assert(parsed::expr_spec(t, 0, 0) == (Ok::<NodeView, parsed::ParseErrorView>(whole), 17int));
}

/// The tokens of `f(a op1 b, c op2 d)`.
pub open spec fn call_tokens(f: Seq<char>, a: i64, op1: Operators, b: i64, c: i64, op2: Operators, d: i64) -> Seq<
    TokenView,
> {
    seq![
        TokenView::Identifier(f),
        TokenView::Operator(Operators::LParen),
        TokenView::Integer(a),
        TokenView::Operator(op1),
        TokenView::Integer(b),
        TokenView::Operator(Operators::Comma),
        TokenView::Integer(c),
        TokenView::Operator(op2),
        TokenView::Integer(d),
        TokenView::Operator(Operators::RParen),
        TokenView::EOF,
    ]
}

/// Each argument of a call is a whole expression, whatever binary operators
/// it holds: `f(a op1 b, c op2 d)` calls `f` with `a op1 b` and `c op2 d`.
/// So `sin(x + 1)` has the one argument `x + 1`.
pub proof fn law_call_arguments_are_whole_expressions(
    f: Seq<char>,
    a: i64,
    op1: Operators,
    b: i64,
    c: i64,
    op2: Operators,
    d: i64,
)
    requires
        binary_operator(op1),
        binary_operator(op2),
    ensures
        parsed::parse_spec(call_tokens(f, a, op1, b, c, op2, d), 0) == (
            Ok::<NodeView, parsed::ParseErrorView>(
                NodeView::FunctionCall {
                    name: f,
                    args: seq![
                        bin(op1, NodeView::Integer(a), NodeView::Integer(b)),
                        bin(op2, NodeView::Integer(c), NodeView::Integer(d)),
                    ],
                },
            ),
            10int,
        ),
{
    lemma_levels(op1, op2);
    let t = call_tokens(f, a, op1, b, c, op2, d);
    let x = bin(op1, NodeView::Integer(a), NodeView::Integer(b));
    let y = bin(op2, NodeView::Integer(c), NodeView::Integer(d));
    let args = seq![x, y];
    let whole = NodeView::FunctionCall { name: f, args };
    assert(parsed::tok(t, 0) == TokenView::Identifier(f));
    assert(parsed::tok(t, 1) == TokenView::Operator(Operators::LParen));
    assert(parsed::tok(t, 2) == TokenView::Integer(a));
    assert(parsed::tok(t, 5) == TokenView::Operator(Operators::Comma));
    assert(parsed::tok(t, 9) == TokenView::Operator(Operators::RParen));
    assert(parsed::tok(t, 10) == TokenView::EOF);
    lemma_binop_alone(t, 2, a, op1, b, 0);
    lemma_binop_alone(t, 6, c, op2, d, 0);
    // No `=` follows the first `)`: this is a call, not a definition.
    assert(parsed::first_rparen(t, 9) == 9);
    assert(parsed::first_rparen(t, 8) == 9);
    assert(parsed::first_rparen(t, 7) == 9);
    assert(parsed::first_rparen(t, 6) == 9);
    assert(parsed::first_rparen(t, 5) == 9);
    assert(parsed::first_rparen(t, 4) == 9);
    assert(parsed::first_rparen(t, 3) == 9);
    assert(parsed::first_rparen(t, 2) == 9);
    assert(!parsed::definition_ahead(t, 1));
    assert(seq![x].push(y) =~= args);
    assert(parsed::arg_list_spec(t, 6, seq![x]) == (Ok::<Seq<NodeView>, parsed::ParseErrorView>(args), 9int));
    assert(Seq::<NodeView>::empty().push(x) =~= seq![x]);
    assert(parsed::arg_list_spec(t, 2, Seq::empty()) == (Ok::<Seq<NodeView>, parsed::ParseErrorView>(args), 9int));
    assert(parsed::function_call_spec(t, 1, f) == (Ok::<NodeView, parsed::ParseErrorView>(whole), 10int));
    assert(parsed::identifier_spec(t, 1, f) == (Ok::<NodeView, parsed::ParseErrorView>(whole), 10int));
    assert(parsed::prefix_spec(t, 0) == (Ok::<NodeView, parsed::ParseErrorView>(whole), 10int));
    assert(!parsed::implicit_multiplication(t, 10));
    assert(parsed::expr_loop_spec(t, 10, 0, whole) == (Ok::<NodeView, parsed::ParseErrorView>(whole), 10int));
    assert(parsed::expr_spec(t, 0, 0) == (Ok::<NodeView, parsed::ParseErrorView>(whole), 10int));
}

/// The names of the calculus forms differ from one another.
proof fn lemma_calculus_names()
    ensures
        "sum"@ != "prod"@,
        "sum"@ != "int"@,
        "sum"@ != "lim"@,
        "sum"@ != "diff"@,
        "prod"@ != "int"@,
        "prod"@ != "lim"@,
        "int"@ != "lim"@,
        "int"@ != "diff"@,
        "lim"@ != "diff"@,
        "prod"@ != "diff"@,
        parsed::is_calculus_name("sum"@),
        parsed::is_calculus_name("prod"@),
        parsed::is_calculus_name("int"@),
        parsed::is_calculus_name("lim"@),
        parsed::is_calculus_name("diff"@),
{
    reveal_strlit("sum");
    reveal_strlit("prod");
    reveal_strlit("int");
    reveal_strlit("lim");
    reveal_strlit("diff");
    assert("sum"@[0] != "int"@[0]);
    assert("sum"@[0] != "lim"@[0]);
    assert("int"@[0] != "lim"@[0]);
    assert("prod"@[0] != "diff"@[0]);
}

/// A prefix operator (`-`, `+`, `!`) binds tighter than every binary
/// operator but `^`: `u a op b` is `(u a) op b`, except for `op` being `^`,
/// where it is `u (a ^ b)`. So `-a*b` is `(-a)*b` and `-a^b` is `-(a^b)`.
pub proof fn law_prefix_binds_below_power(u: Operators, a: i64, op: Operators, b: i64)
    requires
        u == Operators::Minus || u == Operators::Plus || u == Operators::Exclamation,
        binary_operator(op),
    ensures
        parsed::parse_spec(prefixed_operand(u, a, op, b), 0) == (
            Ok::<NodeView, parsed::ParseErrorView>(
                if binding_level(op) < binding_level(Operators::Caret) {
                    bin(
                        op,
                        NodeView::UnaryOp { op: u, child: Box::new(NodeView::Integer(a)) },
                        NodeView::Integer(b),
                    )
                } else {
                    NodeView::UnaryOp {
                        op: u,
                        child: Box::new(bin(op, NodeView::Integer(a), NodeView::Integer(b))),
                    }
                },
            ),
            4int,
        ),
{
    lemma_levels(op, op);
    assert(ast::prefix_precedence(u) == Some(8u8));
    law_prefix_grouping(u, a, op, b);
}

/// The tokens of `name[v = a .. b](c op d)`.
pub open spec fn big_operator_tokens(
    name: Seq<char>,
    v: Seq<char>,
    a: i64,
    b: i64,
    c: i64,
    op: Operators,
    d: i64,
) -> Seq<TokenView> {
    seq![
        TokenView::Identifier(name),
        TokenView::Operator(Operators::LBracket),
        TokenView::Identifier(v),
        TokenView::Operator(Operators::Equal),
        TokenView::Integer(a),
        TokenView::Operator(Operators::RangeDots),
        TokenView::Integer(b),
        TokenView::Operator(Operators::RBracket),
        TokenView::Operator(Operators::LParen),
        TokenView::Integer(c),
        TokenView::Operator(op),
        TokenView::Integer(d),
        TokenView::Operator(Operators::RParen),
        TokenView::EOF,
    ]
}

/// `sum[v = a .. b](c op d)` is the sum over `v` from `a` to `b` of the
/// whole body `c op d`, and `prod[..](..)` the product alike.
#[verifier::rlimit(40)]
pub proof fn law_sum_and_product(is_sum: bool, v: Seq<char>, a: i64, b: i64, c: i64, op: Operators, d: i64)
    requires
        binary_operator(op),
    ensures
        parsed::parse_spec(
            big_operator_tokens(if is_sum { "sum"@ } else { "prod"@ }, v, a, b, c, op, d),
            0,
        ) == (
            Ok::<NodeView, parsed::ParseErrorView>(
                if is_sum {
                    NodeView::Summation {
                        var: v,
                        start: Box::new(NodeView::Integer(a)),
                        end: Box::new(NodeView::Integer(b)),
                        body: Box::new(bin(op, NodeView::Integer(c), NodeView::Integer(d))),
                    }
                } else {
                    NodeView::Product {
                        var: v,
                        start: Box::new(NodeView::Integer(a)),
                        end: Box::new(NodeView::Integer(b)),
                        body: Box::new(bin(op, NodeView::Integer(c), NodeView::Integer(d))),
                    }
                },
            ),
            13int,
        ),
{
    lemma_calculus_names();
    lemma_levels(op, op);
    let name = if is_sum { "sum"@ } else { "prod"@ };
    let t = big_operator_tokens(name, v, a, b, c, op, d);
    let ia = NodeView::Integer(a);
    let ib = NodeView::Integer(b);
    let body = bin(op, NodeView::Integer(c), NodeView::Integer(d));
    let whole = if is_sum {
        NodeView::Summation { var: v, start: Box::new(ia), end: Box::new(ib), body: Box::new(body) }
    } else {
        NodeView::Product { var: v, start: Box::new(ia), end: Box::new(ib), body: Box::new(body) }
    };
    assert(parsed::tok(t, 0) == TokenView::Identifier(name));
    assert(parsed::tok(t, 1) == TokenView::Operator(Operators::LBracket));
    assert(parsed::tok(t, 2) == TokenView::Identifier(v));
    assert(parsed::tok(t, 3) == TokenView::Operator(Operators::Equal));
    assert(parsed::tok(t, 4) == TokenView::Integer(a));
    assert(parsed::tok(t, 5) == TokenView::Operator(Operators::RangeDots));
    assert(parsed::tok(t, 7) == TokenView::Operator(Operators::RBracket));
    assert(parsed::tok(t, 8) == TokenView::Operator(Operators::LParen));
    assert(parsed::tok(t, 12) == TokenView::Operator(Operators::RParen));
    assert(parsed::tok(t, 13) == TokenView::EOF);
    // The bounds: the range `a .. b`.
    lemma_integer_alone(t, 6, b, 4);
    let rg = NodeView::Range { start: Box::new(ia), end: Box::new(ib), step: None };
    assert(!parsed::implicit_multiplication(t, 5));
    assert(!parsed::implicit_multiplication(t, 7));
    assert(parsed::expr_loop_spec(t, 7, 0, rg) == (Ok::<NodeView, parsed::ParseErrorView>(rg), 7int));
    assert(parsed::range_spec(t, 6, 0, ia) == (Ok::<NodeView, parsed::ParseErrorView>(rg), 7int));
    assert(parsed::prefix_spec(t, 4) == (Ok::<NodeView, parsed::ParseErrorView>(ia), 5int));
    assert(parsed::expr_loop_spec(t, 5, 0, ia) == (Ok::<NodeView, parsed::ParseErrorView>(rg), 7int));
    assert(parsed::expr_spec(t, 4, 0) == (Ok::<NodeView, parsed::ParseErrorView>(rg), 7int));
    // The body.
    lemma_binop_alone(t, 9, c, op, d, 0);
    assert(parsed::sum_spec(t, 3, is_sum, v) == (Ok::<NodeView, parsed::ParseErrorView>(whole), 13int));
    assert((name == "sum"@) == is_sum);
    assert(parsed::calculus_spec(t, 2, name) == (Ok::<NodeView, parsed::ParseErrorView>(whole), 13int));
    assert(parsed::identifier_spec(t, 1, name) == (Ok::<NodeView, parsed::ParseErrorView>(whole), 13int));
    assert(parsed::prefix_spec(t, 0) == (Ok::<NodeView, parsed::ParseErrorView>(whole), 13int));
    assert(!parsed::implicit_multiplication(t, 13));
    assert(parsed::expr_loop_spec(t, 13, 0, whole) == (Ok::<NodeView, parsed::ParseErrorView>(whole), 13int));
    assert(parsed::expr_spec(t, 0, 0) == (Ok::<NodeView, parsed::ParseErrorView>(whole), 13int));
}

/// The tokens of `lim[v -> a op1 b](c op2 d)`.
pub open spec fn limit_tokens(v: Seq<char>, a: i64, op1: Operators, b: i64, c: i64, op2: Operators, d: i64) -> Seq<
    TokenView,
> {
    seq![
        TokenView::Identifier("lim"@),
        TokenView::Operator(Operators::LBracket),
        TokenView::Identifier(v),
        TokenView::Operator(Operators::Minus),
        TokenView::Operator(Operators::GreaterThan),
        TokenView::Integer(a),
        TokenView::Operator(op1),
        TokenView::Integer(b),
        TokenView::Operator(Operators::RBracket),
        TokenView::Operator(Operators::LParen),
        TokenView::Integer(c),
        TokenView::Operator(op2),
        TokenView::Integer(d),
        TokenView::Operator(Operators::RParen),
        TokenView::EOF,
    ]
}

/// The target and the body of a limit are whole expressions:
/// `lim[v -> a op1 b](c op2 d)` is the limit of `c op2 d` as `v` tends to
/// `a op1 b`.
#[verifier::rlimit(40)]
pub proof fn law_limit_parts_are_whole_expressions(
    v: Seq<char>,
    a: i64,
    op1: Operators,
    b: i64,
    c: i64,
    op2: Operators,
    d: i64,
)
    requires
        binary_operator(op1),
        binary_operator(op2),
    ensures
        parsed::parse_spec(limit_tokens(v, a, op1, b, c, op2, d), 0) == (
            Ok::<NodeView, parsed::ParseErrorView>(
                NodeView::Limit {
                    var: v,
                    target: Box::new(bin(op1, NodeView::Integer(a), NodeView::Integer(b))),
                    body: Box::new(bin(op2, NodeView::Integer(c), NodeView::Integer(d))),
                },
            ),
            14int,
        ),
{
    lemma_calculus_names();
    lemma_levels(op1, op2);
    let t = limit_tokens(v, a, op1, b, c, op2, d);
    let target = bin(op1, NodeView::Integer(a), NodeView::Integer(b));
    let body = bin(op2, NodeView::Integer(c), NodeView::Integer(d));
    let whole = NodeView::Limit { var: v, target: Box::new(target), body: Box::new(body) };
    assert(parsed::tok(t, 0) == TokenView::Identifier("lim"@));
    assert(parsed::tok(t, 1) == TokenView::Operator(Operators::LBracket));
    assert(parsed::tok(t, 2) == TokenView::Identifier(v));
    assert(parsed::tok(t, 3) == TokenView::Operator(Operators::Minus));
    assert(parsed::tok(t, 4) == TokenView::Operator(Operators::GreaterThan));
    assert(parsed::tok(t, 8) == TokenView::Operator(Operators::RBracket));
    assert(parsed::tok(t, 9) == TokenView::Operator(Operators::LParen));
    assert(parsed::tok(t, 13) == TokenView::Operator(Operators::RParen));
    assert(parsed::tok(t, 14) == TokenView::EOF);
    lemma_binop_alone(t, 5, a, op1, b, 0);
    lemma_binop_alone(t, 10, c, op2, d, 0);
    assert(parsed::limit_spec(t, 3, v) == (Ok::<NodeView, parsed::ParseErrorView>(whole), 14int));
    assert(parsed::calculus_spec(t, 2, "lim"@) == (Ok::<NodeView, parsed::ParseErrorView>(whole), 14int));
    assert(parsed::identifier_spec(t, 1, "lim"@) == (Ok::<NodeView, parsed::ParseErrorView>(whole), 14int));
    assert(parsed::prefix_spec(t, 0) == (Ok::<NodeView, parsed::ParseErrorView>(whole), 14int));
    assert(!parsed::implicit_multiplication(t, 14));
    assert(parsed::expr_loop_spec(t, 14, 0, whole) == (Ok::<NodeView, parsed::ParseErrorView>(whole), 14int));
    assert(parsed::expr_spec(t, 0, 0) == (Ok::<NodeView, parsed::ParseErrorView>(whole), 14int));
}

/// The tokens of `diff[v, a op1 b](c op2 d)`.
pub open spec fn diff_tokens(v: Seq<char>, a: i64, op1: Operators, b: i64, c: i64, op2: Operators, d: i64) -> Seq<
    TokenView,
> {
    seq![
        TokenView::Identifier("diff"@),
        TokenView::Operator(Operators::LBracket),
        TokenView::Identifier(v),
        TokenView::Operator(Operators::Comma),
        TokenView::Integer(a),
        TokenView::Operator(op1),
        TokenView::Integer(b),
        TokenView::Operator(Operators::RBracket),
        TokenView::Operator(Operators::LParen),
        TokenView::Integer(c),
        TokenView::Operator(op2),
        TokenView::Integer(d),
        TokenView::Operator(Operators::RParen),
        TokenView::EOF,
    ]
}

/// The order and the body of a derivative are whole expressions:
/// `diff[v, a op1 b](c op2 d)` differentiates `c op2 d` by `v`, `a op1 b`
/// times.
#[verifier::rlimit(40)]
pub proof fn law_derivative_parts_are_whole_expressions(
    v: Seq<char>,
    a: i64,
    op1: Operators,
    b: i64,
    c: i64,
    op2: Operators,
    d: i64,
)
    requires
        binary_operator(op1),
        binary_operator(op2),
    ensures
        parsed::parse_spec(diff_tokens(v, a, op1, b, c, op2, d), 0) == (
            Ok::<NodeView, parsed::ParseErrorView>(
                NodeView::DerivativeExpr {
                    var: v,
                    order: Box::new(bin(op1, NodeView::Integer(a), NodeView::Integer(b))),
                    body: Box::new(bin(op2, NodeView::Integer(c), NodeView::Integer(d))),
                },
            ),
            13int,
        ),
{
    lemma_calculus_names();
    lemma_levels(op1, op2);
    let t = diff_tokens(v, a, op1, b, c, op2, d);
    let order = bin(op1, NodeView::Integer(a), NodeView::Integer(b));
    let body = bin(op2, NodeView::Integer(c), NodeView::Integer(d));
    let whole = NodeView::DerivativeExpr { var: v, order: Box::new(order), body: Box::new(body) };
    assert(parsed::tok(t, 0) == TokenView::Identifier("diff"@));
    assert(parsed::tok(t, 1) == TokenView::Operator(Operators::LBracket));
    assert(parsed::tok(t, 2) == TokenView::Identifier(v));
    assert(parsed::tok(t, 3) == TokenView::Operator(Operators::Comma));
    assert(parsed::tok(t, 7) == TokenView::Operator(Operators::RBracket));
    assert(parsed::tok(t, 8) == TokenView::Operator(Operators::LParen));
    assert(parsed::tok(t, 12) == TokenView::Operator(Operators::RParen));
    assert(parsed::tok(t, 13) == TokenView::EOF);
    lemma_binop_alone(t, 4, a, op1, b, 0);
    lemma_binop_alone(t, 9, c, op2, d, 0);
    assert(parsed::diff_spec(t, 3, v) == (Ok::<NodeView, parsed::ParseErrorView>(whole), 13int));
    assert(parsed::calculus_spec(t, 2, "diff"@) == (Ok::<NodeView, parsed::ParseErrorView>(whole), 13int));
    assert(parsed::identifier_spec(t, 1, "diff"@) == (Ok::<NodeView, parsed::ParseErrorView>(whole), 13int));
    assert(parsed::prefix_spec(t, 0) == (Ok::<NodeView, parsed::ParseErrorView>(whole), 13int));
    assert(!parsed::implicit_multiplication(t, 13));
    assert(parsed::expr_loop_spec(t, 13, 0, whole) == (Ok::<NodeView, parsed::ParseErrorView>(whole), 13int));
    assert(parsed::expr_spec(t, 0, 0) == (Ok::<NodeView, parsed::ParseErrorView>(whole), 13int));
}

/// The tokens of `int[v](a op b)`.
pub open spec fn indefinite_integral_tokens(v: Seq<char>, a: i64, op: Operators, b: i64) -> Seq<TokenView> {
    seq![
        TokenView::Identifier("int"@),
        TokenView::Operator(Operators::LBracket),
        TokenView::Identifier(v),
        TokenView::Operator(Operators::RBracket),
        TokenView::Operator(Operators::LParen),
        TokenView::Integer(a),
        TokenView::Operator(op),
        TokenView::Integer(b),
        TokenView::Operator(Operators::RParen),
        TokenView::EOF,
    ]
}

/// The body of an indefinite integral is a whole expression: `int[v](a op
/// b)` integrates `a op b` over `v`.
pub proof fn law_indefinite_integral_body(v: Seq<char>, a: i64, op: Operators, b: i64)
    requires
        binary_operator(op),
    ensures
        parsed::parse_spec(indefinite_integral_tokens(v, a, op, b), 0) == (
            Ok::<NodeView, parsed::ParseErrorView>(
                NodeView::IndefIntegral {
                    var: v,
                    body: Box::new(bin(op, NodeView::Integer(a), NodeView::Integer(b))),
                },
            ),
            9int,
        ),
{
    lemma_calculus_names();
    lemma_levels(op, op);
    let t = indefinite_integral_tokens(v, a, op, b);
    let body = bin(op, NodeView::Integer(a), NodeView::Integer(b));
    let whole = NodeView::IndefIntegral { var: v, body: Box::new(body) };
    assert(parsed::tok(t, 0) == TokenView::Identifier("int"@));
    assert(parsed::tok(t, 1) == TokenView::Operator(Operators::LBracket));
    assert(parsed::tok(t, 2) == TokenView::Identifier(v));
    assert(parsed::tok(t, 3) == TokenView::Operator(Operators::RBracket));
    assert(parsed::tok(t, 4) == TokenView::Operator(Operators::LParen));
    assert(parsed::tok(t, 8) == TokenView::Operator(Operators::RParen));
    assert(parsed::tok(t, 9) == TokenView::EOF);
    lemma_binop_alone(t, 5, a, op, b, 0);
    assert(parsed::integral_spec(t, 3, v) == (Ok::<NodeView, parsed::ParseErrorView>(whole), 9int));
    assert(parsed::calculus_spec(t, 2, "int"@) == (Ok::<NodeView, parsed::ParseErrorView>(whole), 9int));
    assert(parsed::identifier_spec(t, 1, "int"@) == (Ok::<NodeView, parsed::ParseErrorView>(whole), 9int));
    assert(parsed::prefix_spec(t, 0) == (Ok::<NodeView, parsed::ParseErrorView>(whole), 9int));
    assert(!parsed::implicit_multiplication(t, 9));
    assert(parsed::expr_loop_spec(t, 9, 0, whole) == (Ok::<NodeView, parsed::ParseErrorView>(whole), 9int));
    assert(parsed::expr_spec(t, 0, 0) == (Ok::<NodeView, parsed::ParseErrorView>(whole), 9int));
}

/// The tokens of `f(x) = a op b`.
pub open spec fn definition_tokens(f: Seq<char>, x: Seq<char>, a: i64, op: Operators, b: i64) -> Seq<TokenView> {
    seq![
        TokenView::Identifier(f),
        TokenView::Operator(Operators::LParen),
        TokenView::Identifier(x),
        TokenView::Operator(Operators::RParen),
        TokenView::Operator(Operators::Equal),
        TokenView::Integer(a),
        TokenView::Operator(op),
        TokenView::Integer(b),
        TokenView::EOF,
    ]
}

/// The body of a function definition is the whole expression after `=`:
/// `f(x) = a op b` defines `f` of the parameter `x` as `a op b`.
pub proof fn law_definition_body_is_whole_expression(
    f: Seq<char>,
    x: Seq<char>,
    a: i64,
    op: Operators,
    b: i64,
)
    requires
        binary_operator(op),
    ensures
        parsed::parse_spec(definition_tokens(f, x, a, op, b), 0) == (
            Ok::<NodeView, parsed::ParseErrorView>(
                NodeView::FunctionDef {
                    name: f,
                    params: seq![x],
                    body: Box::new(bin(op, NodeView::Integer(a), NodeView::Integer(b))),
                },
            ),
            8int,
        ),
{
    lemma_levels(op, op);
    let t = definition_tokens(f, x, a, op, b);
    let body = bin(op, NodeView::Integer(a), NodeView::Integer(b));
    let whole = NodeView::FunctionDef { name: f, params: seq![x], body: Box::new(body) };
    assert(parsed::tok(t, 0) == TokenView::Identifier(f));
    assert(parsed::tok(t, 1) == TokenView::Operator(Operators::LParen));
    assert(parsed::tok(t, 2) == TokenView::Identifier(x));
    assert(parsed::tok(t, 3) == TokenView::Operator(Operators::RParen));
    assert(parsed::tok(t, 4) == TokenView::Operator(Operators::Equal));
    assert(parsed::tok(t, 8) == TokenView::EOF);
    lemma_binop_alone(t, 5, a, op, b, 0);
    assert(parsed::first_rparen(t, 3) == 3);
    assert(parsed::first_rparen(t, 2) == 3);
    assert(parsed::definition_ahead(t, 1));
    assert(Seq::<Seq<char>>::empty().push(x) =~= seq![x]);
    assert(parsed::param_list_spec(t, 2, Seq::empty()) == (Ok::<Seq<Seq<char>>, parsed::ParseErrorView>(seq![x]), 3int));
    assert(parsed::function_def_spec(t, 1, f) == (Ok::<NodeView, parsed::ParseErrorView>(whole), 8int));
    assert(parsed::identifier_spec(t, 1, f) == (Ok::<NodeView, parsed::ParseErrorView>(whole), 8int));
    assert(parsed::prefix_spec(t, 0) == (Ok::<NodeView, parsed::ParseErrorView>(whole), 8int));
    assert(!parsed::implicit_multiplication(t, 8));
    assert(parsed::expr_loop_spec(t, 8, 0, whole) == (Ok::<NodeView, parsed::ParseErrorView>(whole), 8int));
    assert(parsed::expr_spec(t, 0, 0) == (Ok::<NodeView, parsed::ParseErrorView>(whole), 8int));
}

/// The tokens of `a[b op1 c, d op2 e]`.
pub open spec fn index_tokens(a: i64, b: i64, op1: Operators, c: i64, d: i64, op2: Operators, e: i64) -> Seq<
    TokenView,
> {
    seq![
        TokenView::Integer(a),
        TokenView::Operator(Operators::LBracket),
        TokenView::Integer(b),
        TokenView::Operator(op1),
        TokenView::Integer(c),
        TokenView::Operator(Operators::Comma),
        TokenView::Integer(d),
        TokenView::Operator(op2),
        TokenView::Integer(e),
        TokenView::Operator(Operators::RBracket),
        TokenView::EOF,
    ]
}

/// Each index of `a[..]` is a whole expression: `a[b op1 c, d op2 e]`
/// indexes `a` by `b op1 c` and `d op2 e`.
#[verifier::rlimit(40)]
pub proof fn law_indices_are_whole_expressions(
    a: i64,
    b: i64,
    op1: Operators,
    c: i64,
    d: i64,
    op2: Operators,
    e: i64,
)
    requires
        binary_operator(op1),
        binary_operator(op2),
    ensures
        parsed::parse_spec(index_tokens(a, b, op1, c, d, op2, e), 0) == (
            Ok::<NodeView, parsed::ParseErrorView>(
                NodeView::Index {
                    expr: Box::new(NodeView::Integer(a)),
                    indices: seq![
                        bin(op1, NodeView::Integer(b), NodeView::Integer(c)),
                        bin(op2, NodeView::Integer(d), NodeView::Integer(e)),
                    ],
                },
            ),
            10int,
        ),
{
    lemma_levels(op1, op2);
    let t = index_tokens(a, b, op1, c, d, op2, e);
    let ia = NodeView::Integer(a);
    let x = bin(op1, NodeView::Integer(b), NodeView::Integer(c));
    let y = bin(op2, NodeView::Integer(d), NodeView::Integer(e));
    let indices = seq![x, y];
    let whole = NodeView::Index { expr: Box::new(ia), indices };
    assert(parsed::tok(t, 0) == TokenView::Integer(a));
    assert(parsed::tok(t, 1) == TokenView::Operator(Operators::LBracket));
    assert(parsed::tok(t, 2) == TokenView::Integer(b));
    assert(parsed::tok(t, 5) == TokenView::Operator(Operators::Comma));
    assert(parsed::tok(t, 6) == TokenView::Integer(d));
    assert(parsed::tok(t, 9) == TokenView::Operator(Operators::RBracket));
    assert(parsed::tok(t, 10) == TokenView::EOF);
    lemma_binop_alone(t, 2, b, op1, c, 0);
    lemma_binop_alone(t, 6, d, op2, e, 0);
    assert(seq![x].push(y) =~= indices);
    assert(Seq::<NodeView>::empty().push(x) =~= seq![x]);
    assert(parsed::index_list_spec(t, 6, seq![x]) == (Ok::<Seq<NodeView>, parsed::ParseErrorView>(indices), 9int));
    assert(parsed::index_list_spec(t, 2, Seq::empty()) == (Ok::<Seq<NodeView>, parsed::ParseErrorView>(indices), 9int));
    assert(parsed::prefix_spec(t, 0) == (Ok::<NodeView, parsed::ParseErrorView>(ia), 1int));
    assert(!parsed::implicit_multiplication(t, 1));
    assert(!parsed::implicit_multiplication(t, 10));
    assert(parsed::expr_loop_spec(t, 10, 0, whole) == (Ok::<NodeView, parsed::ParseErrorView>(whole), 10int));
    assert(parsed::expr_loop_spec(t, 1, 0, ia) == (Ok::<NodeView, parsed::ParseErrorView>(whole), 10int));
    assert(parsed::expr_spec(t, 0, 0) == (Ok::<NodeView, parsed::ParseErrorView>(whole), 10int));
}

/// The tokens of `[a op1 b; c op2 d]`.
pub open spec fn matrix_tokens(a: i64, op1: Operators, b: i64, c: i64, op2: Operators, d: i64) -> Seq<TokenView> {
    seq![
        TokenView::Operator(Operators::LBracket),
        TokenView::Integer(a),
        TokenView::Operator(op1),
        TokenView::Integer(b),
        TokenView::Operator(Operators::Semicolon),
        TokenView::Integer(c),
        TokenView::Operator(op2),
        TokenView::Integer(d),
        TokenView::Operator(Operators::RBracket),
        TokenView::EOF,
    ]
}

/// Each element of a matrix is a whole expression, and `;` ends a row:
/// `[a op1 b; c op2 d]` is the matrix of the two rows `a op1 b` and
/// `c op2 d`.
#[verifier::rlimit(40)]
pub proof fn law_matrix_elements_are_whole_expressions(
    a: i64,
    op1: Operators,
    b: i64,
    c: i64,
    op2: Operators,
    d: i64,
)
    requires
        binary_operator(op1),
        binary_operator(op2),
    ensures
        parsed::parse_spec(matrix_tokens(a, op1, b, c, op2, d), 0) == (
            Ok::<NodeView, parsed::ParseErrorView>(
                NodeView::Matrix {
                    rows: seq![
                        seq![bin(op1, NodeView::Integer(a), NodeView::Integer(b))],
                        seq![bin(op2, NodeView::Integer(c), NodeView::Integer(d))],
                    ],
                },
            ),
            9int,
        ),
{
    lemma_levels(op1, op2);
    let t = matrix_tokens(a, op1, b, c, op2, d);
    let x = bin(op1, NodeView::Integer(a), NodeView::Integer(b));
    let y = bin(op2, NodeView::Integer(c), NodeView::Integer(d));
    let rows = seq![seq![x], seq![y]];
    let whole = NodeView::Matrix { rows };
    assert(parsed::tok(t, 0) == TokenView::Operator(Operators::LBracket));
    assert(parsed::tok(t, 1) == TokenView::Integer(a));
    assert(parsed::tok(t, 4) == TokenView::Operator(Operators::Semicolon));
    assert(parsed::tok(t, 5) == TokenView::Integer(c));
    assert(parsed::tok(t, 8) == TokenView::Operator(Operators::RBracket));
    assert(parsed::tok(t, 9) == TokenView::EOF);
    lemma_binop_alone(t, 1, a, op1, b, 0);
    lemma_binop_alone(t, 5, c, op2, d, 0);
    assert(Seq::<NodeView>::empty().push(x) =~= seq![x]);
    assert(Seq::<NodeView>::empty().push(y) =~= seq![y]);
    assert(Seq::<Seq<NodeView>>::empty().push(seq![x]) =~= seq![seq![x]]);
    assert(seq![seq![x]].push(seq![y]) =~= rows);
    assert(parsed::matrix_row_spec(t, 1, Seq::empty()) == (Ok::<Seq<NodeView>, parsed::ParseErrorView>(seq![x]), 5int));
    assert(parsed::matrix_row_spec(t, 5, Seq::empty()) == (Ok::<Seq<NodeView>, parsed::ParseErrorView>(seq![y]), 8int));
    assert(parsed::matrix_rows_spec(t, 8, rows) == (Ok::<NodeView, parsed::ParseErrorView>(whole), 9int));
    assert(parsed::matrix_rows_spec(t, 5, seq![seq![x]]) == (Ok::<NodeView, parsed::ParseErrorView>(whole), 9int));
    assert(parsed::matrix_rows_spec(t, 1, Seq::empty()) == (Ok::<NodeView, parsed::ParseErrorView>(whole), 9int));
    assert(parsed::matrix_spec(t, 0) == (Ok::<NodeView, parsed::ParseErrorView>(whole), 9int));
    assert(parsed::prefix_spec(t, 0) == (Ok::<NodeView, parsed::ParseErrorView>(whole), 9int));
    assert(!parsed::implicit_multiplication(t, 9));
    assert(parsed::expr_loop_spec(t, 9, 0, whole) == (Ok::<NodeView, parsed::ParseErrorView>(whole), 9int));
    assert(parsed::expr_spec(t, 0, 0) == (Ok::<NodeView, parsed::ParseErrorView>(whole), 9int));
}

/// The tokens of `a op b[c]`.
pub open spec fn indexed_operand_tokens(a: i64, op: Operators, b: i64, c: i64) -> Seq<TokenView> {
    seq![
        TokenView::Integer(a),
        TokenView::Operator(op),
        TokenView::Integer(b),
        TokenView::Operator(Operators::LBracket),
        TokenView::Integer(c),
        TokenView::Operator(Operators::RBracket),
        TokenView::EOF,
    ]
}

/// Indexing binds tighter than every binary operator: `a op b[c]` is
/// `a op (b[c])`.
pub proof fn law_index_binds_tightest(a: i64, op: Operators, b: i64, c: i64)
    requires
        binary_operator(op),
    ensures
        parsed::parse_spec(indexed_operand_tokens(a, op, b, c), 0) == (
            Ok::<NodeView, parsed::ParseErrorView>(
                bin(
                    op,
                    NodeView::Integer(a),
                    NodeView::Index {
                        expr: Box::new(NodeView::Integer(b)),
                        indices: seq![NodeView::Integer(c)],
                    },
                ),
            ),
            6int,
        ),
{
    lemma_levels(op, op);
    let t = indexed_operand_tokens(a, op, b, c);
    let rp = right_operand_precedence(op);
    let ia = NodeView::Integer(a);
    let ib = NodeView::Integer(b);
    let ic = NodeView::Integer(c);
    let ix = NodeView::Index { expr: Box::new(ib), indices: seq![ic] };
    let whole = bin(op, ia, ix);
    assert(parsed::tok(t, 0) == TokenView::Integer(a));
    assert(parsed::tok(t, 1) == TokenView::Operator(op));
    assert(parsed::tok(t, 2) == TokenView::Integer(b));
    assert(parsed::tok(t, 3) == TokenView::Operator(Operators::LBracket));
    assert(parsed::tok(t, 4) == TokenView::Integer(c));
    assert(parsed::tok(t, 5) == TokenView::Operator(Operators::RBracket));
    assert(parsed::tok(t, 6) == TokenView::EOF);
    lemma_integer_alone(t, 4, c, 0);
    assert(Seq::<NodeView>::empty().push(ic) =~= seq![ic]);
    assert(parsed::index_list_spec(t, 4, Seq::empty()) == (Ok::<Seq<NodeView>, parsed::ParseErrorView>(seq![ic]), 5int));
    assert(!parsed::implicit_multiplication(t, 1));
    assert(!parsed::implicit_multiplication(t, 3));
    assert(!parsed::implicit_multiplication(t, 6));
    assert(parsed::expr_loop_spec(t, 6, rp, ix) == (Ok::<NodeView, parsed::ParseErrorView>(ix), 6int));
    assert(parsed::expr_loop_spec(t, 3, rp, ib) == (Ok::<NodeView, parsed::ParseErrorView>(ix), 6int));
    assert(parsed::prefix_spec(t, 2) == (Ok::<NodeView, parsed::ParseErrorView>(ib), 3int));
    assert(parsed::expr_spec(t, 2, rp) == (Ok::<NodeView, parsed::ParseErrorView>(ix), 6int));
    assert(parsed::prefix_spec(t, 0) == (Ok::<NodeView, parsed::ParseErrorView>(ia), 1int));
    assert(parsed::expr_loop_spec(t, 6, 0, whole) == (Ok::<NodeView, parsed::ParseErrorView>(whole), 6int));
    assert(parsed::expr_loop_spec(t, 1, 0, ia) == (Ok::<NodeView, parsed::ParseErrorView>(whole), 6int));
    assert(parsed::expr_spec(t, 0, 0) == (Ok::<NodeView, parsed::ParseErrorView>(whole), 6int));
}

/// The tokens of `b (c) op d`.
pub open spec fn product_then_operator_tokens(b: i64, c: i64, op: Operators, d: i64) -> Seq<TokenView> {
    seq![
        TokenView::Integer(b),
        TokenView::Operator(Operators::LParen),
        TokenView::Integer(c),
        TokenView::Operator(Operators::RParen),
        TokenView::Operator(op),
        TokenView::Integer(d),
        TokenView::EOF,
    ]
}

/// The right factor of an implicit product takes only the operators that
/// bind tighter than `*`: `b (c) op d` is `b * (c op d)` when `op` is `^`,
/// and `(b * c) op d` for every other binary operator. So `2(x)^2` is
/// `2 * (x^2)` and `2(x) - 1` is `(2 * x) - 1`.
pub proof fn law_implicit_product_right_factor(b: i64, c: i64, op: Operators, d: i64)
    requires
        binary_operator(op),
    ensures
        parsed::parse_spec(product_then_operator_tokens(b, c, op, d), 0) == (
            Ok::<NodeView, parsed::ParseErrorView>(
                if binding_level(op) > binding_level(Operators::Star) {
                    bin(Operators::Star, NodeView::Integer(b), bin(op, NodeView::Integer(c), NodeView::Integer(d)))
                } else {
                    bin(op, bin(Operators::Star, NodeView::Integer(b), NodeView::Integer(c)), NodeView::Integer(d))
                },
            ),
            6int,
        ),
{
    lemma_levels(op, op);
    let t = product_then_operator_tokens(b, c, op, d);
    let opp = ast::infix_precedence(op)->Some_0;
    let rp = right_operand_precedence(op);
    let ib = NodeView::Integer(b);
    let ic = NodeView::Integer(c);
    let id = NodeView::Integer(d);
    assert(parsed::tok(t, 0) == TokenView::Integer(b));
    assert(parsed::tok(t, 1) == TokenView::Operator(Operators::LParen));
    assert(parsed::tok(t, 3) == TokenView::Operator(Operators::RParen));
    assert(parsed::tok(t, 4) == TokenView::Operator(op));
    assert(parsed::tok(t, 6) == TokenView::EOF);
    lemma_integer_alone(t, 2, c, 0);
    lemma_integer_alone(t, 5, d, rp);
    assert(parsed::prefix_spec(t, 0) == (Ok::<NodeView, parsed::ParseErrorView>(ib), 1int));
    assert(parsed::prefix_spec(t, 1) == (Ok::<NodeView, parsed::ParseErrorView>(ic), 4int));
    assert(parsed::implicit_multiplication(t, 1));
    assert(!parsed::implicit_multiplication(t, 4));
    assert(!parsed::implicit_multiplication(t, 6));
    if opp > 7 {
        let r = bin(op, ic, id);
        let whole = bin(Operators::Star, ib, r);
        assert(parsed::expr_loop_spec(t, 6, 7, r) == (Ok::<NodeView, parsed::ParseErrorView>(r), 6int));
        assert(parsed::expr_loop_spec(t, 4, 7, ic) == (Ok::<NodeView, parsed::ParseErrorView>(r), 6int));
        assert(parsed::expr_spec(t, 1, 7) == (Ok::<NodeView, parsed::ParseErrorView>(r), 6int));
        assert(parsed::expr_loop_spec(t, 6, 0, whole) == (Ok::<NodeView, parsed::ParseErrorView>(whole), 6int));
        assert(parsed::expr_loop_spec(t, 1, 0, ib) == (Ok::<NodeView, parsed::ParseErrorView>(whole), 6int));
    } else {
        let l = bin(Operators::Star, ib, ic);
        let whole = bin(op, l, id);
        assert(parsed::expr_loop_spec(t, 4, 7, ic) == (Ok::<NodeView, parsed::ParseErrorView>(ic), 4int));
        assert(parsed::expr_spec(t, 1, 7) == (Ok::<NodeView, parsed::ParseErrorView>(ic), 4int));
        assert(parsed::expr_loop_spec(t, 6, 0, whole) == (Ok::<NodeView, parsed::ParseErrorView>(whole), 6int));
        assert(parsed::expr_loop_spec(t, 4, 0, l) == (Ok::<NodeView, parsed::ParseErrorView>(whole), 6int));
        assert(parsed::expr_loop_spec(t, 1, 0, ib) == (Ok::<NodeView, parsed::ParseErrorView>(whole), 6int));
    }
    assert(parsed::expr_spec(t, 0, 0) == parsed::expr_loop_spec(t, 1, 0, ib));
}

/// The tokens of `a .. b, c op d`.
pub open spec fn stepped_range_tokens(a: i64, b: i64, c: i64, op: Operators, d: i64) -> Seq<TokenView> {
    seq![
        TokenView::Integer(a),
        TokenView::Operator(Operators::RangeDots),
        TokenView::Integer(b),
        TokenView::Operator(Operators::Comma),
        TokenView::Integer(c),
        TokenView::Operator(op),
        TokenView::Integer(d),
        TokenView::EOF,
    ]
}

/// The step of a range takes every operator that binds tighter than `..`:
/// in `a .. b, c op d` the step is `c op d` when `op` binds tighter than
/// `..`; else the range `a .. b, c` is the left operand of `op`.
pub proof fn law_range_step_binds_tighter_operators(a: i64, b: i64, c: i64, op: Operators, d: i64)
    requires
        binary_operator(op),
    ensures
        parsed::parse_spec(stepped_range_tokens(a, b, c, op, d), 0) == (
            Ok::<NodeView, parsed::ParseErrorView>(
                if binding_level(op) > binding_level(Operators::RangeDots) {
                    NodeView::Range {
                        start: Box::new(NodeView::Integer(a)),
                        end: Box::new(NodeView::Integer(b)),
                        step: Some(Box::new(bin(op, NodeView::Integer(c), NodeView::Integer(d)))),
                    }
                } else {
                    bin(
                        op,
                        NodeView::Range {
                            start: Box::new(NodeView::Integer(a)),
                            end: Box::new(NodeView::Integer(b)),
                            step: Some(Box::new(NodeView::Integer(c))),
                        },
                        NodeView::Integer(d),
                    )
                },
            ),
            7int,
        ),
{
    lemma_levels(op, op);
    let t = stepped_range_tokens(a, b, c, op, d);
    let opp = ast::infix_precedence(op)->Some_0;
    let rp = right_operand_precedence(op);
    let ia = NodeView::Integer(a);
    let ib = NodeView::Integer(b);
    let ic = NodeView::Integer(c);
    let id = NodeView::Integer(d);
    assert(parsed::tok(t, 0) == TokenView::Integer(a));
    assert(parsed::tok(t, 1) == TokenView::Operator(Operators::RangeDots));
    assert(parsed::tok(t, 3) == TokenView::Operator(Operators::Comma));
    assert(parsed::tok(t, 4) == TokenView::Integer(c));
    assert(parsed::tok(t, 5) == TokenView::Operator(op));
    assert(parsed::tok(t, 7) == TokenView::EOF);
    lemma_integer_alone(t, 2, b, 4);
    lemma_integer_alone(t, 6, d, rp);
    assert(parsed::prefix_spec(t, 0) == (Ok::<NodeView, parsed::ParseErrorView>(ia), 1int));
    assert(parsed::prefix_spec(t, 4) == (Ok::<NodeView, parsed::ParseErrorView>(ic), 5int));
    assert(!parsed::implicit_multiplication(t, 1));
    assert(!parsed::implicit_multiplication(t, 5));
    assert(!parsed::implicit_multiplication(t, 7));
    if opp > 4 {
        let step = bin(op, ic, id);
        let rg = NodeView::Range { start: Box::new(ia), end: Box::new(ib), step: Some(Box::new(step)) };
        assert(parsed::expr_loop_spec(t, 7, 4, step) == (Ok::<NodeView, parsed::ParseErrorView>(step), 7int));
        assert(parsed::expr_loop_spec(t, 5, 4, ic) == (Ok::<NodeView, parsed::ParseErrorView>(step), 7int));
        assert(parsed::expr_spec(t, 4, 4) == (Ok::<NodeView, parsed::ParseErrorView>(step), 7int));
        assert(parsed::expr_loop_spec(t, 7, 0, rg) == (Ok::<NodeView, parsed::ParseErrorView>(rg), 7int));
        assert(parsed::range_spec(t, 2, 0, ia) == (Ok::<NodeView, parsed::ParseErrorView>(rg), 7int));
        assert(parsed::expr_loop_spec(t, 1, 0, ia) == (Ok::<NodeView, parsed::ParseErrorView>(rg), 7int));
    } else {
        let rg = NodeView::Range { start: Box::new(ia), end: Box::new(ib), step: Some(Box::new(ic)) };
        let whole = bin(op, rg, id);
        assert(parsed::expr_loop_spec(t, 5, 4, ic) == (Ok::<NodeView, parsed::ParseErrorView>(ic), 5int));
        assert(parsed::expr_spec(t, 4, 4) == (Ok::<NodeView, parsed::ParseErrorView>(ic), 5int));
        assert(parsed::expr_loop_spec(t, 7, 0, whole) == (Ok::<NodeView, parsed::ParseErrorView>(whole), 7int));
        assert(parsed::expr_loop_spec(t, 5, 0, rg) == (Ok::<NodeView, parsed::ParseErrorView>(whole), 7int));
        assert(parsed::range_spec(t, 2, 0, ia) == (Ok::<NodeView, parsed::ParseErrorView>(whole), 7int));
        assert(parsed::expr_loop_spec(t, 1, 0, ia) == (Ok::<NodeView, parsed::ParseErrorView>(whole), 7int));
    }
    assert(parsed::expr_spec(t, 0, 0) == parsed::expr_loop_spec(t, 1, 0, ia));
}

} // verus!
