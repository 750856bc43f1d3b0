use vstd::prelude::*;
use vstd::string::*;

use crate::ast::{
    trim_leading_zeros, trim_trailing_zeros, BinaryOperator, Expression, Number, SpecExpr,
    SpecNumber, UnaryOperator,
};
use crate::errors::Error;

verus! {

// ---------------------------------------------------------------------------
// Character classes
// ---------------------------------------------------------------------------
/// Whitespace between tokens: space, tab, carriage return and line feed.
pub open spec fn is_ws_char(c: char) -> bool {
    c == ' ' || c == '\t' || c == '\n' || c == '\r'
}

/// A decimal digit.
pub open spec fn is_digit_char(c: char) -> bool {
    '0' as u32 <= c as u32 && c as u32 <= '9' as u32
}

/// The value of a decimal digit character.
pub open spec fn digit_val(c: char) -> u8 {
    (c as u32 - '0' as u32) as u8
}

/// A character that may form a word (a future identifier).
pub open spec fn is_word_char(c: char) -> bool {
    ||| 'a' as u32 <= c as u32 && c as u32 <= 'z' as u32
    ||| 'A' as u32 <= c as u32 && c as u32 <= 'Z' as u32
    ||| c == '_'
}

/// A character on which a finished expression stops cleanly, leaving a
/// remainder for the caller: a closing parenthesis, or anything that could
/// begin a new token (a digit, a dot, an opening parenthesis, a word).
/// Any other character cannot begin a valid production where an operator
/// could stand, and is reported as `UnexpectedToken`.
pub open spec fn ends_expr_char(c: char) -> bool {
    c == ')' || c == '(' || c == '.' || is_digit_char(c) || is_word_char(c)
}

// ---------------------------------------------------------------------------
// Scanning
// ---------------------------------------------------------------------------
/// The position of the first non-whitespace character at or after `pos`.
pub open spec fn ws_end(s: Seq<char>, pos: int) -> int
    decreases s.len() - pos,
{
    if 0 <= pos < s.len() && is_ws_char(s[pos]) {
        ws_end(s, pos + 1)
    } else {
        pos
    }
}

/// The position of the first non-digit character at or after `pos`.
pub open spec fn digits_end(s: Seq<char>, pos: int) -> int
    decreases s.len() - pos,
{
    if 0 <= pos < s.len() && is_digit_char(s[pos]) {
        digits_end(s, pos + 1)
    } else {
        pos
    }
}

/// `ws_end` lands after a whitespace run and never leaves the input.
pub proof fn lemma_ws_end(s: Seq<char>, pos: int)
    requires
        0 <= pos <= s.len(),
    ensures
        pos <= ws_end(s, pos) <= s.len(),
        forall|i: int| pos <= i < ws_end(s, pos) ==> is_ws_char(s[i]),
        ws_end(s, pos) == s.len() || !is_ws_char(s[ws_end(s, pos)]),
    decreases s.len() - pos,
{
    if pos < s.len() && is_ws_char(s[pos]) {
        lemma_ws_end(s, pos + 1);
    }
}

/// `digits_end` lands after a digit run and never leaves the input.
pub proof fn lemma_digits_end(s: Seq<char>, pos: int)
    requires
        0 <= pos <= s.len(),
    ensures
        pos <= digits_end(s, pos) <= s.len(),
        forall|i: int| pos <= i < digits_end(s, pos) ==> is_digit_char(s[i]),
        digits_end(s, pos) == s.len() || !is_digit_char(s[digits_end(s, pos)]),
    decreases s.len() - pos,
{
    if pos < s.len() && is_digit_char(s[pos]) {
        lemma_digits_end(s, pos + 1);
    }
}

/// The digit values of `s` between `from` and `to`.
pub open spec fn digit_seq(s: Seq<char>, from: int, to: int) -> Seq<u8> {
    Seq::new((to - from) as nat, |i: int| digit_val(s[from + i]))
}

// ---------------------------------------------------------------------------
// The grammar, as a function: one spec function per precedence level.
//
// Each level takes the whole input together with the position it starts at,
// so that a failure can report its offset into the original input. On
// success it returns the position of the first character it did not consume
// (whitespace after a consumed token is consumed with it) and the tree built
// so far.
// ---------------------------------------------------------------------------
/// What remains of the input after `pos`; the termination measure of the
/// descent.
pub open spec fn remaining(s: Seq<char>, pos: int) -> int {
    if pos <= s.len() {
        s.len() - pos
    } else {
        0
    }
}

/// Guards the termination of the descent: the position a sub-parser moved
/// to, provided it advanced and stayed inside the input, which every
/// sub-parser does (the executable parser proves it of each intermediate
/// result, so `step_from` always equals `next` where it is reached).
pub open spec fn step_from(s: Seq<char>, pos: int, next: int) -> int {
    if pos < next <= s.len() {
        next
    } else {
        pos + 1
    }
}

/// A numeric literal at `pos`: digits, then optionally a dot and digits,
/// with at least one digit in all; its value in canonical digit form.
pub open spec fn sp_number(s: Seq<char>, pos: int) -> Result<(int, SpecNumber), Error> {
    let int_end = digits_end(s, pos);
    if int_end < s.len() && s[int_end] == '.' {
        let frac_end = digits_end(s, int_end + 1);
        if int_end == pos && frac_end == int_end + 1 {
            Err(Error::InvalidNumber(pos as usize))
        } else {
            Ok(
                (
                    frac_end,
                    SpecNumber {
                        int_digits: trim_leading_zeros(digit_seq(s, pos, int_end)),
                        frac_digits: trim_trailing_zeros(digit_seq(s, int_end + 1, frac_end)),
                    },
                ),
            )
        }
    } else if int_end == pos {
        Err(Error::InvalidNumber(pos as usize))
    } else {
        Ok(
            (
                int_end,
                SpecNumber {
                    int_digits: trim_leading_zeros(digit_seq(s, pos, int_end)),
                    frac_digits: Seq::empty(),
                },
            ),
        )
    }
}

/// Primary: a numeric literal or a parenthesized expression.
pub open spec fn sp_primary(s: Seq<char>, pos: int) -> Result<(int, SpecExpr), Error>
    decreases remaining(s, pos), 0int,
{
    if !(0 <= pos < s.len()) {
        Err(Error::UnexpectedEnd(pos as usize))
    } else if s[pos] == '(' {
        let inner_pos = step_from(s, pos, ws_end(s, pos + 1));
        match sp_additive(s, inner_pos) {
            Ok((p1, inner)) => if p1 < s.len() && s[p1] == ')' {
                Ok((ws_end(s, p1 + 1), SpecExpr::Grouped(Box::new(inner))))
            } else {
                Err(Error::UnclosedGroup(p1 as usize))
            },
            Err(e) => Err(e),
        }
    } else if is_digit_char(s[pos]) || s[pos] == '.' {
        match sp_number(s, pos) {
            Ok((p1, n)) => Ok((ws_end(s, p1), SpecExpr::NumberLiteral(n))),
            Err(e) => Err(e),
        }
    } else {
        Err(Error::UnexpectedToken(pos as usize))
    }
}

/// Unary: leading minus signs, right-associative, over a primary.
pub open spec fn sp_unary(s: Seq<char>, pos: int) -> Result<(int, SpecExpr), Error>
    decreases remaining(s, pos), 1int,
{
    if 0 <= pos < s.len() && s[pos] == '-' {
        let opnd_pos = step_from(s, pos, ws_end(s, pos + 1));
        match sp_unary(s, opnd_pos) {
            Ok((p1, operand)) => Ok(
                (p1, SpecExpr::UnaryOp(UnaryOperator::Negate, Box::new(operand))),
            ),
            Err(e) => Err(e),
        }
    } else {
        sp_primary(s, pos)
    }
}

/// The left-associative chain of `*` and `/` continuing `left` at `pos`.
pub open spec fn sp_mul_rest(s: Seq<char>, pos: int, left: SpecExpr) -> Result<
    (int, SpecExpr),
    Error,
>
    decreases remaining(s, pos), 1int,
{
    if 0 <= pos < s.len() && (s[pos] == '*' || s[pos] == '/') {
        let op = if s[pos] == '*' {
            BinaryOperator::Multiply
        } else {
            BinaryOperator::Divide
        };
        let opnd_pos = step_from(s, pos, ws_end(s, pos + 1));
        match sp_unary(s, opnd_pos) {
            Ok((p2, right)) => sp_mul_rest(
                s,
                step_from(s, pos, p2),
                SpecExpr::BinaryOp(op, Box::new(left), Box::new(right)),
            ),
            Err(e) => Err(e),
        }
    } else {
        Ok((pos, left))
    }
}

/// Multiplicative: a chain of unaries joined by `*` or `/`, folded to the
/// left.
pub open spec fn sp_multiplicative(s: Seq<char>, pos: int) -> Result<(int, SpecExpr), Error>
    decreases remaining(s, pos), 2int,
{
    match sp_unary(s, pos) {
        Ok((p1, first)) => sp_mul_rest(s, step_from(s, pos, p1), first),
        Err(e) => Err(e),
    }
}

/// The left-associative chain of `+` and binary `-` continuing `left` at
/// `pos`. This is also where the token after a finished expression is
/// classified: a character that could neither continue the expression nor
/// begin a remainder token is an `UnexpectedToken`.
pub open spec fn sp_add_rest(s: Seq<char>, pos: int, left: SpecExpr) -> Result<
    (int, SpecExpr),
    Error,
>
    decreases remaining(s, pos), 2int,
{
    if 0 <= pos < s.len() && (s[pos] == '+' || s[pos] == '-') {
        let op = if s[pos] == '+' {
            BinaryOperator::Add
        } else {
            BinaryOperator::Subtract
        };
        let opnd_pos = step_from(s, pos, ws_end(s, pos + 1));
        match sp_multiplicative(s, opnd_pos) {
            Ok((p2, right)) => sp_add_rest(
                s,
                step_from(s, pos, p2),
                SpecExpr::BinaryOp(op, Box::new(left), Box::new(right)),
            ),
            Err(e) => Err(e),
        }
    } else if 0 <= pos < s.len() && !ends_expr_char(s[pos]) {
        Err(Error::UnexpectedToken(pos as usize))
    } else {
        Ok((pos, left))
    }
}

/// Additive: a chain of multiplicatives joined by `+` or `-`, folded to the
/// left; the lowest precedence level.
pub open spec fn sp_additive(s: Seq<char>, pos: int) -> Result<(int, SpecExpr), Error>
    decreases remaining(s, pos), 3int,
{
    match sp_multiplicative(s, pos) {
        Ok((p1, first)) => sp_add_rest(s, step_from(s, pos, p1), first),
        Err(e) => Err(e),
    }
}

/// The whole grammar: leading whitespace, then one additive expression.
/// On success the returned position is the start of the remainder.
pub open spec fn sp_parse_expr(s: Seq<char>) -> Result<(int, SpecExpr), Error> {
    sp_additive(s, ws_end(s, 0))
}

// ---------------------------------------------------------------------------
// Laws of the grammar
// ---------------------------------------------------------------------------
/// `digits_end` is pinned by the shape of the input: a digit run from `pos`
/// that stops at `e` scans exactly to `e`.
pub proof fn lemma_digits_end_exact(s: Seq<char>, pos: int, e: int)
    requires
        0 <= pos <= e <= s.len(),
        forall|i: int| pos <= i < e ==> is_digit_char(s[i]),
        e == s.len() || !is_digit_char(s[e]),
    ensures
        digits_end(s, pos) == e,
    decreases e - pos,
{
    if pos < e {
        lemma_digits_end_exact(s, pos + 1, e);
    }
}

/// How a parse outcome, with the remainder and the tree as the model sees
/// them, relates to the grammar: this is what [`parse_expr`] establishes of
/// its result.
pub open spec fn parse_outcome_matches(
    s: Seq<char>,
    r: Result<(Seq<char>, SpecExpr), Error>,
) -> bool {
    match (r, sp_parse_expr(s)) {
        (Ok((rest, tree)), Ok((sp_p, sp_e))) => {
            &&& rest == s.subrange(sp_p, s.len() as int)
            &&& tree == sp_e
        },
        (Err(e1), Err(e2)) => e1 == e2,
        _ => false,
    }
}

/// Parsing is deterministic: two parses of the same input agree outcome for
/// outcome — the same tree and the same remainder, or the same error. In
/// particular, parsing the same input twice produces structurally equal
/// trees.
pub proof fn lemma_parse_deterministic(
    s: Seq<char>,
    r1: Result<(Seq<char>, SpecExpr), Error>,
    r2: Result<(Seq<char>, SpecExpr), Error>,
)
    requires
        parse_outcome_matches(s, r1),
        parse_outcome_matches(s, r2),
    ensures
        r1 == r2,
{
}

/// Every valid decimal literal parses, whole: an integer part of `k` digits,
/// an optional dot with a fractional part after it, and at least one digit
/// in all. The parse consumes the entire input, leaving an empty remainder,
/// and yields exactly the literal's value, as a `NumberLiteral` in canonical
/// digit form.
pub proof fn lemma_parse_literal(s: Seq<char>, k: int)
    requires
        0 <= k <= s.len(),
        s.len() > 0,
        forall|i: int| 0 <= i < k ==> is_digit_char(s[i]),
        k < s.len() ==> s[k] == '.',
        forall|i: int| k < i < s.len() ==> is_digit_char(s[i]),
        k > 0 || k + 1 < s.len(),
    ensures
        (match sp_parse_expr(s) {
            Ok((p, tree)) => {
                &&& p == s.len()
                &&& tree == SpecExpr::NumberLiteral(
                    SpecNumber {
                        int_digits: trim_leading_zeros(digit_seq(s, 0, k)),
                        frac_digits: if k < s.len() {
                            trim_trailing_zeros(digit_seq(s, k + 1, s.len() as int))
                        } else {
                            Seq::empty()
                        },
                    },
                )
            },
            Err(_) => false,
        }),
{
    let n = s.len() as int;
    assert(is_digit_char(s[0]) || s[0] == '.');
    assert(!is_ws_char(s[0]));
    assert(ws_end(s, 0) == 0);
    lemma_digits_end_exact(s, 0, k);
    if k < n {
        lemma_digits_end_exact(s, k + 1, n);
    }
    let num = sp_number(s, 0);
    assert(num is Ok && num->Ok_0.0 == n);
    assert(ws_end(s, n) == n);
    assert(sp_primary(s, 0) == Ok::<(int, SpecExpr), Error>(
        (n, SpecExpr::NumberLiteral(num->Ok_0.1)),
    ));
    assert(sp_unary(s, 0) == sp_primary(s, 0));
    assert(step_from(s, 0, n) == n);
    let tree = SpecExpr::NumberLiteral(num->Ok_0.1);
    assert(sp_mul_rest(s, n, tree) == Ok::<(int, SpecExpr), Error>((n, tree)));
    assert(sp_multiplicative(s, 0) == Ok::<(int, SpecExpr), Error>((n, tree)));
    assert(sp_add_rest(s, n, tree) == Ok::<(int, SpecExpr), Error>((n, tree)));
    assert(sp_additive(s, 0) == Ok::<(int, SpecExpr), Error>((n, tree)));
}

/// An error moved `d` characters to the right, as it comes out when the same
/// failure is met `d` characters later in a longer input.
pub open spec fn shift_error(e: Error, d: int) -> Error {
    match e {
        Error::UnexpectedEnd(off) => Error::UnexpectedEnd((off + d) as usize),
        Error::InvalidNumber(off) => Error::InvalidNumber((off + d) as usize),
        Error::UnclosedGroup(off) => Error::UnclosedGroup((off + d) as usize),
        Error::UnexpectedToken(off) => Error::UnexpectedToken((off + d) as usize),
    }
}

/// `t` is `s` with `d` characters of other text in front of it.
pub open spec fn extends_at(t: Seq<char>, d: int, s: Seq<char>) -> bool {
    &&& 0 <= d
    &&& t.len() == d + s.len()
    &&& t.len() <= usize::MAX
    &&& forall|i: int| 0 <= i < s.len() ==> t[d + i] == s[i]
}

/// Scanning whitespace from inside a whitespace run ends where scanning from
/// the run's end does.
pub proof fn lemma_ws_end_skip(s: Seq<char>, pos: int, k: int)
    requires
        0 <= pos <= k <= s.len(),
        forall|i: int| pos <= i < k ==> is_ws_char(s[i]),
    ensures
        ws_end(s, pos) == ws_end(s, k),
    decreases k - pos,
{
    if pos < k {
        assert(is_ws_char(s[pos]));
        lemma_ws_end_skip(s, pos + 1, k);
    }
}

/// Whitespace scanning never looks before its position: in an extended
/// input it lands `d` characters further, nothing else.
pub proof fn lemma_ws_end_shift(s: Seq<char>, t: Seq<char>, d: int, pos: int)
    requires
        extends_at(t, d, s),
        0 <= pos <= s.len(),
    ensures
        ws_end(t, d + pos) == d + ws_end(s, pos),
    decreases s.len() - pos,
{
    if pos < s.len() {
        assert(t[d + pos] == s[pos]);
        if is_ws_char(s[pos]) {
            lemma_ws_end_shift(s, t, d, pos + 1);
        }
    }
}

/// As [`lemma_ws_end_shift`], for digit scanning.
pub proof fn lemma_digits_end_shift(s: Seq<char>, t: Seq<char>, d: int, pos: int)
    requires
        extends_at(t, d, s),
        0 <= pos <= s.len(),
    ensures
        digits_end(t, d + pos) == d + digits_end(s, pos),
    decreases s.len() - pos,
{
    if pos < s.len() {
        assert(t[d + pos] == s[pos]);
        if is_digit_char(s[pos]) {
            lemma_digits_end_shift(s, t, d, pos + 1);
        }
    }
}

/// A literal never looks before its position: in an extended input the same
/// literal is read, `d` characters further; and a literal that is read
/// consumes at least one character and stays inside the input.
pub proof fn lemma_sp_number_shift(s: Seq<char>, t: Seq<char>, d: int, pos: int)
    requires
        extends_at(t, d, s),
        0 <= pos <= s.len(),
    ensures
        (match (sp_number(s, pos), sp_number(t, d + pos)) {
            (Ok((p, a)), Ok((q, b))) => q == d + p && b == a && pos < p <= s.len(),
            (Err(e1), Err(e2)) => e2 == shift_error(e1, d),
            _ => false,
        }),
{
    lemma_digits_end(s, pos);
    lemma_digits_end_shift(s, t, d, pos);
    let int_end = digits_end(s, pos);
    if int_end < s.len() {
        assert(t[d + int_end] == s[int_end]);
    }
    if int_end < s.len() && s[int_end] == '.' {
        lemma_digits_end(s, int_end + 1);
        lemma_digits_end_shift(s, t, d, int_end + 1);
        let frac_end = digits_end(s, int_end + 1);
        if !(int_end == pos && frac_end == int_end + 1) {
            assert(digit_seq(t, d + pos, d + int_end) =~= digit_seq(s, pos, int_end));
            assert(digit_seq(t, d + int_end + 1, d + frac_end) =~= digit_seq(
                s,
                int_end + 1,
                frac_end,
            ));
        }
    } else if int_end != pos {
        assert(digit_seq(t, d + pos, d + int_end) =~= digit_seq(s, pos, int_end));
    }
}

/// A primary never looks before its position. In an input extended in front
/// by `d` characters it yields the same tree `d` characters further, or the
/// same error with its offset moved by `d`; and a success consumes at least
/// one character and stays inside the input.
pub proof fn lemma_shift_primary(s: Seq<char>, t: Seq<char>, d: int, pos: int)
    requires
        extends_at(t, d, s),
        0 <= pos <= s.len(),
    ensures
        (match (sp_primary(s, pos), sp_primary(t, d + pos)) {
            (Ok((p, a)), Ok((q, b))) => q == d + p && b == a && pos < p <= s.len(),
            (Err(e1), Err(e2)) => e2 == shift_error(e1, d),
            _ => false,
        }),
    decreases remaining(s, pos), 0int,
{
    if pos < s.len() {
        assert(t[d + pos] == s[pos]);
        if s[pos] == '(' {
            lemma_ws_end(s, pos + 1);
            lemma_ws_end_shift(s, t, d, pos + 1);
            let inner_pos = step_from(s, pos, ws_end(s, pos + 1));
            assert(step_from(t, d + pos, ws_end(t, d + pos + 1)) == d + inner_pos);
            lemma_shift_additive(s, t, d, inner_pos);
            match sp_additive(s, inner_pos) {
                Ok((p1, _inner)) => {
                    if p1 < s.len() {
                        assert(t[d + p1] == s[p1]);
                    }
                    if p1 < s.len() && s[p1] == ')' {
                        lemma_ws_end(s, p1 + 1);
                        lemma_ws_end_shift(s, t, d, p1 + 1);
                    }
                },
                Err(_) => {},
            }
        } else if is_digit_char(s[pos]) || s[pos] == '.' {
            lemma_sp_number_shift(s, t, d, pos);
            match sp_number(s, pos) {
                Ok((p1, _n)) => {
                    lemma_ws_end(s, p1);
                    lemma_ws_end_shift(s, t, d, p1);
                },
                Err(_) => {},
            }
        }
    }
}

/// As [`lemma_shift_primary`], for the unary level.
pub proof fn lemma_shift_unary(s: Seq<char>, t: Seq<char>, d: int, pos: int)
    requires
        extends_at(t, d, s),
        0 <= pos <= s.len(),
    ensures
        (match (sp_unary(s, pos), sp_unary(t, d + pos)) {
            (Ok((p, a)), Ok((q, b))) => q == d + p && b == a && pos < p <= s.len(),
            (Err(e1), Err(e2)) => e2 == shift_error(e1, d),
            _ => false,
        }),
    decreases remaining(s, pos), 1int,
{
    if pos < s.len() {
        assert(t[d + pos] == s[pos]);
    }
    if pos < s.len() && s[pos] == '-' {
        lemma_ws_end(s, pos + 1);
        lemma_ws_end_shift(s, t, d, pos + 1);
        let opnd_pos = step_from(s, pos, ws_end(s, pos + 1));
        assert(step_from(t, d + pos, ws_end(t, d + pos + 1)) == d + opnd_pos);
        lemma_shift_unary(s, t, d, opnd_pos);
    } else {
        lemma_shift_primary(s, t, d, pos);
    }
}

/// As [`lemma_shift_primary`], for a multiplicative chain's continuation,
/// which may consume nothing.
pub proof fn lemma_shift_mul_rest(s: Seq<char>, t: Seq<char>, d: int, pos: int, left: SpecExpr)
    requires
        extends_at(t, d, s),
        0 <= pos <= s.len(),
    ensures
        (match (sp_mul_rest(s, pos, left), sp_mul_rest(t, d + pos, left)) {
            (Ok((p, a)), Ok((q, b))) => q == d + p && b == a && pos <= p <= s.len(),
            (Err(e1), Err(e2)) => e2 == shift_error(e1, d),
            _ => false,
        }),
    decreases remaining(s, pos), 1int,
{
    if pos < s.len() {
        assert(t[d + pos] == s[pos]);
    }
    if pos < s.len() && (s[pos] == '*' || s[pos] == '/') {
        let op = if s[pos] == '*' {
            BinaryOperator::Multiply
        } else {
            BinaryOperator::Divide
        };
        lemma_ws_end(s, pos + 1);
        lemma_ws_end_shift(s, t, d, pos + 1);
        let opnd_pos = step_from(s, pos, ws_end(s, pos + 1));
        assert(step_from(t, d + pos, ws_end(t, d + pos + 1)) == d + opnd_pos);
        lemma_shift_unary(s, t, d, opnd_pos);
        match sp_unary(s, opnd_pos) {
            Ok((p2, right)) => {
                assert(step_from(s, pos, p2) == p2);
                assert(step_from(t, d + pos, d + p2) == d + p2);
                lemma_shift_mul_rest(
                    s,
                    t,
                    d,
                    p2,
                    SpecExpr::BinaryOp(op, Box::new(left), Box::new(right)),
                );
            },
            Err(_) => {},
        }
    }
}

/// As [`lemma_shift_primary`], for the multiplicative level.
pub proof fn lemma_shift_multiplicative(s: Seq<char>, t: Seq<char>, d: int, pos: int)
    requires
        extends_at(t, d, s),
        0 <= pos <= s.len(),
    ensures
        (match (sp_multiplicative(s, pos), sp_multiplicative(t, d + pos)) {
            (Ok((p, a)), Ok((q, b))) => q == d + p && b == a && pos < p <= s.len(),
            (Err(e1), Err(e2)) => e2 == shift_error(e1, d),
            _ => false,
        }),
    decreases remaining(s, pos), 2int,
{
    lemma_shift_unary(s, t, d, pos);
    match sp_unary(s, pos) {
        Ok((p1, first)) => {
            assert(step_from(s, pos, p1) == p1);
            assert(step_from(t, d + pos, d + p1) == d + p1);
            lemma_shift_mul_rest(s, t, d, p1, first);
        },
        Err(_) => {},
    }
}

/// As [`lemma_shift_primary`], for an additive chain's continuation, which
/// may consume nothing.
pub proof fn lemma_shift_add_rest(s: Seq<char>, t: Seq<char>, d: int, pos: int, left: SpecExpr)
    requires
        extends_at(t, d, s),
        0 <= pos <= s.len(),
    ensures
        (match (sp_add_rest(s, pos, left), sp_add_rest(t, d + pos, left)) {
            (Ok((p, a)), Ok((q, b))) => q == d + p && b == a && pos <= p <= s.len(),
            (Err(e1), Err(e2)) => e2 == shift_error(e1, d),
            _ => false,
        }),
    decreases remaining(s, pos), 2int,
{
    if pos < s.len() {
        assert(t[d + pos] == s[pos]);
    }
    if pos < s.len() && (s[pos] == '+' || s[pos] == '-') {
        let op = if s[pos] == '+' {
            BinaryOperator::Add
        } else {
            BinaryOperator::Subtract
        };
        lemma_ws_end(s, pos + 1);
        lemma_ws_end_shift(s, t, d, pos + 1);
        let opnd_pos = step_from(s, pos, ws_end(s, pos + 1));
        assert(step_from(t, d + pos, ws_end(t, d + pos + 1)) == d + opnd_pos);
        lemma_shift_multiplicative(s, t, d, opnd_pos);
        match sp_multiplicative(s, opnd_pos) {
            Ok((p2, right)) => {
                assert(step_from(s, pos, p2) == p2);
                assert(step_from(t, d + pos, d + p2) == d + p2);
                lemma_shift_add_rest(
                    s,
                    t,
                    d,
                    p2,
                    SpecExpr::BinaryOp(op, Box::new(left), Box::new(right)),
                );
            },
            Err(_) => {},
        }
    }
}

/// As [`lemma_shift_primary`], for the additive level: the whole descent
/// never looks before the position it is given.
pub proof fn lemma_shift_additive(s: Seq<char>, t: Seq<char>, d: int, pos: int)
    requires
        extends_at(t, d, s),
        0 <= pos <= s.len(),
    ensures
        (match (sp_additive(s, pos), sp_additive(t, d + pos)) {
            (Ok((p, a)), Ok((q, b))) => q == d + p && b == a && pos < p <= s.len(),
            (Err(e1), Err(e2)) => e2 == shift_error(e1, d),
            _ => false,
        }),
    decreases remaining(s, pos), 3int,
{
    lemma_shift_multiplicative(s, t, d, pos);
    match sp_multiplicative(s, pos) {
        Ok((p1, first)) => {
            assert(step_from(s, pos, p1) == p1);
            assert(step_from(t, d + pos, d + p1) == d + p1);
            lemma_shift_add_rest(s, t, d, p1, first);
        },
        Err(_) => {},
    }
}

/// Leading whitespace is insignificant: whitespace prepended to the input
/// changes neither the tree nor the remainder of a successful parse, and
/// moves a failure's offset by exactly the whitespace's length.
pub proof fn lemma_leading_ws_insensitive(w: Seq<char>, s: Seq<char>)
    requires
        forall|i: int| 0 <= i < w.len() ==> is_ws_char(w[i]),
        w.len() + s.len() <= usize::MAX,
    ensures
        (match (sp_parse_expr(s), sp_parse_expr(w + s)) {
            (Ok((p, tree)), Ok((q, tree2))) => {
                &&& tree2 == tree
                &&& (w + s).subrange(q, (w + s).len() as int) == s.subrange(p, s.len() as int)
            },
            (Err(e1), Err(e2)) => e2 == shift_error(e1, w.len() as int),
            _ => false,
        }),
{
    let t = w + s;
    let d = w.len() as int;
    assert(extends_at(t, d, s));
    assert(forall|i: int| 0 <= i < d ==> t[i] == w[i]);
    lemma_ws_end_skip(t, 0, d);
    lemma_ws_end(s, 0);
    lemma_ws_end_shift(s, t, d, 0);
    let start = ws_end(s, 0);
    assert(ws_end(t, 0) == d + start);
    lemma_shift_additive(s, t, d, start);
    match sp_additive(s, start) {
        Ok((p, _tree)) => {
            assert(t.subrange(d + p, t.len() as int) =~= s.subrange(p, s.len() as int));
        },
        Err(_) => {},
    }
}

/// `t` is `s` with whitespace appended after it.
pub open spec fn extended_by_ws(t: Seq<char>, s: Seq<char>) -> bool {
    &&& s.len() <= t.len() <= usize::MAX
    &&& forall|i: int| 0 <= i < s.len() ==> t[i] == s[i]
    &&& forall|i: int| s.len() <= i < t.len() ==> is_ws_char(t[i])
}

/// Where a position of `s` stands in `t`, an input extended after `s`'s end
/// by whitespace: the end of `s` moves to the end of `t` (the whitespace is
/// consumed over), every other position stays.
pub open spec fn ext_pos(s: Seq<char>, t: Seq<char>, p: int) -> int {
    if p == s.len() {
        t.len() as int
    } else {
        p
    }
}

/// An error as it comes out in the extended input: an offset at `s`'s end
/// moves to `t`'s end, every other offset stays.
pub open spec fn ext_error(s: Seq<char>, t: Seq<char>, e: Error) -> Error {
    match e {
        Error::UnexpectedEnd(off) => Error::UnexpectedEnd(ext_pos(s, t, off as int) as usize),
        Error::InvalidNumber(off) => Error::InvalidNumber(ext_pos(s, t, off as int) as usize),
        Error::UnclosedGroup(off) => Error::UnclosedGroup(ext_pos(s, t, off as int) as usize),
        Error::UnexpectedToken(off) => Error::UnexpectedToken(ext_pos(s, t, off as int) as usize),
    }
}

/// Scanning whitespace that runs to the end of the input lands at the end.
pub proof fn lemma_ws_end_all(t: Seq<char>, pos: int)
    requires
        0 <= pos <= t.len(),
        forall|i: int| pos <= i < t.len() ==> is_ws_char(t[i]),
    ensures
        ws_end(t, pos) == t.len(),
    decreases t.len() - pos,
{
    if pos < t.len() {
        lemma_ws_end_all(t, pos + 1);
    }
}

/// In an input extended by trailing whitespace, a whitespace scan that ended
/// at `s`'s end runs on to `t`'s end; any other scan is unchanged.
pub proof fn lemma_ws_end_ext(s: Seq<char>, t: Seq<char>, pos: int)
    requires
        extended_by_ws(t, s),
        0 <= pos <= s.len(),
    ensures
        ws_end(t, pos) == ext_pos(s, t, ws_end(s, pos)),
    decreases s.len() - pos,
{
    if pos < s.len() {
        assert(t[pos] == s[pos]);
        if is_ws_char(s[pos]) {
            lemma_ws_end_ext(s, t, pos + 1);
        }
    } else {
        lemma_ws_end_all(t, pos);
    }
}

/// A digit scan is unchanged by trailing whitespace: whitespace is no digit.
pub proof fn lemma_digits_end_ext(s: Seq<char>, t: Seq<char>, pos: int)
    requires
        extended_by_ws(t, s),
        0 <= pos <= s.len(),
    ensures
        digits_end(t, pos) == digits_end(s, pos),
    decreases s.len() - pos,
{
    if pos < s.len() {
        assert(t[pos] == s[pos]);
        if is_digit_char(s[pos]) {
            lemma_digits_end_ext(s, t, pos + 1);
        }
    } else {
        if pos < t.len() {
            assert(is_ws_char(t[pos]));
        }
    }
}

/// A literal is read the same way in an input extended by trailing
/// whitespace.
pub proof fn lemma_sp_number_ext(s: Seq<char>, t: Seq<char>, pos: int)
    requires
        extended_by_ws(t, s),
        0 <= pos < s.len(),
    ensures
        (match (sp_number(s, pos), sp_number(t, pos)) {
            (Ok((p, a)), Ok((q, b))) => q == p && b == a && pos < p <= s.len(),
            (Err(e1), Err(e2)) => e2 == e1 && e1.spec_offset() < s.len(),
            _ => false,
        }),
{
    lemma_digits_end(s, pos);
    lemma_digits_end_ext(s, t, pos);
    let int_end = digits_end(s, pos);
    if int_end < s.len() {
        assert(t[int_end] == s[int_end]);
    } else if int_end < t.len() {
        assert(is_ws_char(t[int_end]));
    }
    if int_end < s.len() && s[int_end] == '.' {
        lemma_digits_end(s, int_end + 1);
        lemma_digits_end_ext(s, t, int_end + 1);
        let frac_end = digits_end(s, int_end + 1);
        if !(int_end == pos && frac_end == int_end + 1) {
            assert(digit_seq(t, pos, int_end) =~= digit_seq(s, pos, int_end));
            assert(digit_seq(t, int_end + 1, frac_end) =~= digit_seq(s, int_end + 1, frac_end));
        }
    } else if int_end != pos {
        assert(digit_seq(t, pos, int_end) =~= digit_seq(s, pos, int_end));
    }
}

/// A primary never reads past the first character it leaves unconsumed, so
/// trailing whitespace appended to the input changes only where a scan over
/// it ends: the same tree comes out, with positions and offsets moved by
/// [`ext_pos`].
pub proof fn lemma_ext_primary(s: Seq<char>, t: Seq<char>, pos: int)
    requires
        extended_by_ws(t, s),
        0 <= pos <= s.len(),
    ensures
        (match (sp_primary(s, pos), sp_primary(t, ext_pos(s, t, pos))) {
            (Ok((p, a)), Ok((q, b))) => q == ext_pos(s, t, p) && b == a && pos < p <= s.len(),
            (Err(e1), Err(e2)) => e2 == ext_error(s, t, e1),
            _ => false,
        }),
    decreases remaining(s, pos), 0int,
{
    if pos < s.len() {
        assert(t[pos] == s[pos]);
        if s[pos] == '(' {
            lemma_ws_end(s, pos + 1);
            lemma_ws_end_ext(s, t, pos + 1);
            let inner_pos = step_from(s, pos, ws_end(s, pos + 1));
            assert(step_from(t, pos, ws_end(t, pos + 1)) == ext_pos(s, t, inner_pos));
            lemma_ext_additive(s, t, inner_pos);
            match sp_additive(s, inner_pos) {
                Ok((p1, _inner)) => {
                    if p1 < s.len() {
                        assert(t[p1] == s[p1]);
                        if s[p1] == ')' {
                            lemma_ws_end(s, p1 + 1);
                            lemma_ws_end_ext(s, t, p1 + 1);
                        }
                    } else {
                        if (p1 as int) < t.len() {
                            assert(is_ws_char(t[p1 as int]));
                        }
                    }
                },
                Err(_) => {},
            }
        } else if is_digit_char(s[pos]) || s[pos] == '.' {
            lemma_sp_number_ext(s, t, pos);
            match sp_number(s, pos) {
                Ok((p1, _n)) => {
                    lemma_ws_end(s, p1);
                    lemma_ws_end_ext(s, t, p1);
                },
                Err(_) => {},
            }
        }
    }
}

/// As [`lemma_ext_primary`], for the unary level.
pub proof fn lemma_ext_unary(s: Seq<char>, t: Seq<char>, pos: int)
    requires
        extended_by_ws(t, s),
        0 <= pos <= s.len(),
    ensures
        (match (sp_unary(s, pos), sp_unary(t, ext_pos(s, t, pos))) {
            (Ok((p, a)), Ok((q, b))) => q == ext_pos(s, t, p) && b == a && pos < p <= s.len(),
            (Err(e1), Err(e2)) => e2 == ext_error(s, t, e1),
            _ => false,
        }),
    decreases remaining(s, pos), 1int,
{
    if pos < s.len() {
        assert(t[pos] == s[pos]);
    }
    if pos < s.len() && s[pos] == '-' {
        lemma_ws_end(s, pos + 1);
        lemma_ws_end_ext(s, t, pos + 1);
        let opnd_pos = step_from(s, pos, ws_end(s, pos + 1));
        assert(step_from(t, pos, ws_end(t, pos + 1)) == ext_pos(s, t, opnd_pos));
        lemma_ext_unary(s, t, opnd_pos);
    } else {
        lemma_ext_primary(s, t, pos);
    }
}

/// As [`lemma_ext_primary`], for a multiplicative chain's continuation.
pub proof fn lemma_ext_mul_rest(s: Seq<char>, t: Seq<char>, pos: int, left: SpecExpr)
    requires
        extended_by_ws(t, s),
        0 <= pos <= s.len(),
    ensures
        (match (sp_mul_rest(s, pos, left), sp_mul_rest(t, ext_pos(s, t, pos), left)) {
            (Ok((p, a)), Ok((q, b))) => q == ext_pos(s, t, p) && b == a && pos <= p <= s.len(),
            (Err(e1), Err(e2)) => e2 == ext_error(s, t, e1),
            _ => false,
        }),
    decreases remaining(s, pos), 1int,
{
    if pos < s.len() {
        assert(t[pos] == s[pos]);
        if s[pos] == '*' || s[pos] == '/' {
            let op = if s[pos] == '*' {
                BinaryOperator::Multiply
            } else {
                BinaryOperator::Divide
            };
            lemma_ws_end(s, pos + 1);
            lemma_ws_end_ext(s, t, pos + 1);
            let opnd_pos = step_from(s, pos, ws_end(s, pos + 1));
            assert(step_from(t, pos, ws_end(t, pos + 1)) == ext_pos(s, t, opnd_pos));
            lemma_ext_unary(s, t, opnd_pos);
            match sp_unary(s, opnd_pos) {
                Ok((p2, right)) => {
                    assert(step_from(s, pos, p2) == p2);
                    assert(step_from(t, pos, ext_pos(s, t, p2)) == ext_pos(s, t, p2));
                    lemma_ext_mul_rest(
                        s,
                        t,
                        p2,
                        SpecExpr::BinaryOp(op, Box::new(left), Box::new(right)),
                    );
                },
                Err(_) => {},
            }
        }
    }
}

/// As [`lemma_ext_primary`], for the multiplicative level.
pub proof fn lemma_ext_multiplicative(s: Seq<char>, t: Seq<char>, pos: int)
    requires
        extended_by_ws(t, s),
        0 <= pos <= s.len(),
    ensures
        (match (sp_multiplicative(s, pos), sp_multiplicative(t, ext_pos(s, t, pos))) {
            (Ok((p, a)), Ok((q, b))) => q == ext_pos(s, t, p) && b == a && pos < p <= s.len(),
            (Err(e1), Err(e2)) => e2 == ext_error(s, t, e1),
            _ => false,
        }),
    decreases remaining(s, pos), 2int,
{
    lemma_ext_unary(s, t, pos);
    match sp_unary(s, pos) {
        Ok((p1, first)) => {
            assert(step_from(s, pos, p1) == p1);
            assert(step_from(t, ext_pos(s, t, pos), ext_pos(s, t, p1)) == ext_pos(s, t, p1));
            lemma_ext_mul_rest(s, t, p1, first);
        },
        Err(_) => {},
    }
}

/// As [`lemma_ext_primary`], for an additive chain's continuation.
pub proof fn lemma_ext_add_rest(s: Seq<char>, t: Seq<char>, pos: int, left: SpecExpr)
    requires
        extended_by_ws(t, s),
        0 <= pos <= s.len(),
    ensures
        (match (sp_add_rest(s, pos, left), sp_add_rest(t, ext_pos(s, t, pos), left)) {
            (Ok((p, a)), Ok((q, b))) => q == ext_pos(s, t, p) && b == a && pos <= p <= s.len(),
            (Err(e1), Err(e2)) => e2 == ext_error(s, t, e1),
            _ => false,
        }),
    decreases remaining(s, pos), 2int,
{
    if pos < s.len() {
        assert(t[pos] == s[pos]);
        if s[pos] == '+' || s[pos] == '-' {
            let op = if s[pos] == '+' {
                BinaryOperator::Add
            } else {
                BinaryOperator::Subtract
            };
            lemma_ws_end(s, pos + 1);
            lemma_ws_end_ext(s, t, pos + 1);
            let opnd_pos = step_from(s, pos, ws_end(s, pos + 1));
            assert(step_from(t, pos, ws_end(t, pos + 1)) == ext_pos(s, t, opnd_pos));
            lemma_ext_multiplicative(s, t, opnd_pos);
            match sp_multiplicative(s, opnd_pos) {
                Ok((p2, right)) => {
                    assert(step_from(s, pos, p2) == p2);
                    assert(step_from(t, pos, ext_pos(s, t, p2)) == ext_pos(s, t, p2));
                    lemma_ext_add_rest(
                        s,
                        t,
                        p2,
                        SpecExpr::BinaryOp(op, Box::new(left), Box::new(right)),
                    );
                },
                Err(_) => {},
            }
        }
    }
}

/// As [`lemma_ext_primary`], for the additive level: the whole descent never
/// reads past the first character it leaves unconsumed.
pub proof fn lemma_ext_additive(s: Seq<char>, t: Seq<char>, pos: int)
    requires
        extended_by_ws(t, s),
        0 <= pos <= s.len(),
    ensures
        (match (sp_additive(s, pos), sp_additive(t, ext_pos(s, t, pos))) {
            (Ok((p, a)), Ok((q, b))) => q == ext_pos(s, t, p) && b == a && pos < p <= s.len(),
            (Err(e1), Err(e2)) => e2 == ext_error(s, t, e1),
            _ => false,
        }),
    decreases remaining(s, pos), 3int,
{
    lemma_ext_multiplicative(s, t, pos);
    match sp_multiplicative(s, pos) {
        Ok((p1, first)) => {
            assert(step_from(s, pos, p1) == p1);
            assert(step_from(t, ext_pos(s, t, pos), ext_pos(s, t, p1)) == ext_pos(s, t, p1));
            lemma_ext_add_rest(s, t, p1, first);
        },
        Err(_) => {},
    }
}

/// Trailing whitespace is insignificant: whitespace appended to the input
/// changes neither the outcome nor the tree; a parse that had consumed the
/// whole input consumes the appended whitespace too, so its remainder stays
/// empty, and any other remainder carries the appended whitespace at its
/// end. An error keeps its kind, and its offset moves only when it stood at
/// the old end of the input.
pub proof fn lemma_trailing_ws_insensitive(s: Seq<char>, w: Seq<char>)
    requires
        forall|i: int| 0 <= i < w.len() ==> is_ws_char(w[i]),
        s.len() + w.len() <= usize::MAX,
    ensures
        (match (sp_parse_expr(s), sp_parse_expr(s + w)) {
            (Ok((p, tree)), Ok((q, tree2))) => {
                &&& tree2 == tree
                &&& q == ext_pos(s, s + w, p)
                &&& (p == s.len() ==> (s + w).subrange(q, (s + w).len() as int) == Seq::<
                    char,
                >::empty())
            },
            (Err(e1), Err(e2)) => e2 == ext_error(s, s + w, e1),
            _ => false,
        }),
{
    let t = s + w;
    assert(extended_by_ws(t, s));
    lemma_ws_end(s, 0);
    lemma_ws_end_ext(s, t, 0);
    let start = ws_end(s, 0);
    lemma_ext_additive(s, t, start);
    match sp_additive(s, start) {
        Ok((p, _tree)) => {
            if p == s.len() {
                assert(t.subrange(t.len() as int, t.len() as int) =~= Seq::<char>::empty());
            }
        },
        Err(_) => {},
    }
}

/// Whitespace around the input is insignificant: the input with whitespace
/// prepended and appended parses to the same outcome, with the same tree.
pub proof fn lemma_surrounding_ws_insensitive(w1: Seq<char>, s: Seq<char>, w2: Seq<char>)
    requires
        forall|i: int| 0 <= i < w1.len() ==> is_ws_char(w1[i]),
        forall|i: int| 0 <= i < w2.len() ==> is_ws_char(w2[i]),
        w1.len() + s.len() + w2.len() <= usize::MAX,
    ensures
        (match (sp_parse_expr(s), sp_parse_expr(w1 + s + w2)) {
            (Ok((_, tree)), Ok((_, tree2))) => tree2 == tree,
            (Err(_), Err(_)) => true,
            _ => false,
        }),
{
    lemma_trailing_ws_insensitive(s, w2);
    lemma_leading_ws_insensitive(w1, s + w2);
    assert(w1 + s + w2 =~= w1 + (s + w2));
}

// ---------------------------------------------------------------------------
// The executable parser, one function per grammar function.
// ---------------------------------------------------------------------------
/// How an executable sub-parser's result relates to its grammar function:
/// the same outcome; on success a tree whose model is the grammar's, at a
/// position strictly advanced but still inside the input; on failure the
/// grammar's error, with its offset inside the input.
pub open spec fn step_matches(
    r: Result<(usize, Expression), Error>,
    sp: Result<(int, SpecExpr), Error>,
    pos: int,
    n: int,
) -> bool {
    match (r, sp) {
        (Ok((p, tree)), Ok((sp_p, sp_e))) => {
            &&& p as int == sp_p
            &&& tree@ == sp_e
            &&& pos < p <= n
            &&& tree@.wf()
        },
        (Err(e1), Err(e2)) => e1 == e2 && e1.spec_offset() <= n,
        _ => false,
    }
}

/// As `step_matches`, for the chain parsers, which may consume nothing.
pub open spec fn rest_matches(
    r: Result<(usize, Expression), Error>,
    sp: Result<(int, SpecExpr), Error>,
    pos: int,
    n: int,
) -> bool {
    match (r, sp) {
        (Ok((p, tree)), Ok((sp_p, sp_e))) => {
            &&& p as int == sp_p
            &&& tree@ == sp_e
            &&& pos <= p <= n
            &&& tree@.wf()
        },
        (Err(e1), Err(e2)) => e1 == e2 && e1.spec_offset() <= n,
        _ => false,
    }
}

fn is_digit(c: char) -> (b: bool)
    ensures
        b == is_digit_char(c),
{
    let u = c as u32;
    '0' as u32 <= u && u <= '9' as u32
}

fn is_word(c: char) -> (b: bool)
    ensures
        b == is_word_char(c),
{
    let u = c as u32;
    ('a' as u32 <= u && u <= 'z' as u32) || ('A' as u32 <= u && u <= 'Z' as u32) || c == '_'
}

fn ends_expr(c: char) -> (b: bool)
    ensures
        b == ends_expr_char(c),
{
    c == ')' || c == '(' || c == '.' || is_digit(c) || is_word(c)
}

fn skip_ws(input: &str, n: usize, pos: usize) -> (r: usize)
    requires
        n == input@.len(),
        pos <= n,
    ensures
        r as int == ws_end(input@, pos as int),
        pos <= r <= n,
    decreases n - pos,
{
    if pos < n {
        let c = input.get_char(pos);
        if c == ' ' || c == '\t' || c == '\n' || c == '\r' {
            skip_ws(input, n, pos + 1)
        } else {
            pos
        }
    } else {
        pos
    }
}

fn scan_digits(input: &str, n: usize, pos: usize) -> (r: usize)
    requires
        n == input@.len(),
        pos <= n,
    ensures
        r as int == digits_end(input@, pos as int),
        pos <= r <= n,
    decreases n - pos,
{
    if pos < n {
        let c = input.get_char(pos);
        if is_digit(c) {
            scan_digits(input, n, pos + 1)
        } else {
            pos
        }
    } else {
        pos
    }
}

/// The digit values of the digit run between `from` and `to`.
fn collect_digits(input: &str, n: usize, from: usize, to: usize) -> (v: Vec<u8>)
    requires
        n == input@.len(),
        from <= to <= n,
        forall|i: int| from <= i < to ==> is_digit_char(input@[i]),
    ensures
        v@ == digit_seq(input@, from as int, to as int),
{
    let mut v: Vec<u8> = Vec::new();
    let mut i: usize = from;
    while i < to
        invariant
            n == input@.len(),
            from <= i <= to <= n,
            forall|j: int| from <= j < to ==> is_digit_char(input@[j]),
            v@ == digit_seq(input@, from as int, i as int),
        decreases to - i,
    {
        let c = input.get_char(i);
        let d = ((c as u32 - '0' as u32) as u8);
        v.push(d);
        i = i + 1;
        proof {
            assert(v@ =~= digit_seq(input@, from as int, i as int));
        }
    }
    proof {
        assert(v@ =~= digit_seq(input@, from as int, to as int));
    }
    v
}

fn parse_number(input: &str, n: usize, pos: usize) -> (r: Result<(usize, Number), Error>)
    requires
        n == input@.len(),
        pos <= n,
    ensures
        (match (r, sp_number(input@, pos as int)) {
            (Ok((p, num)), Ok((sp_p, sp_n))) => {
                &&& p as int == sp_p
                &&& num@ == sp_n
                &&& pos < p <= n
                &&& num@.wf()
            },
            (Err(e1), Err(e2)) => e1 == e2 && e1.spec_offset() <= n,
            _ => false,
        }),
{
    proof {
        lemma_digits_end(input@, pos as int);
    }
    let int_end = scan_digits(input, n, pos);
    if int_end < n && input.get_char(int_end) == '.' {
        proof {
            lemma_digits_end(input@, int_end as int + 1);
        }
        let frac_end = scan_digits(input, n, int_end + 1);
        if int_end == pos && frac_end == int_end + 1 {
            Err(Error::InvalidNumber(pos))
        } else {
            let ip = collect_digits(input, n, pos, int_end);
            let fp = collect_digits(input, n, int_end + 1, frac_end);
            let num = Number::new(ip, fp);
            Ok((frac_end, num))
        }
    } else if int_end == pos {
        Err(Error::InvalidNumber(pos))
    } else {
        let ip = collect_digits(input, n, pos, int_end);
        let num = Number::new(ip, Vec::new());
        proof {
            assert(num@.frac_digits =~= Seq::<u8>::empty());
        }
        Ok((int_end, num))
    }
}

fn parse_primary(input: &str, n: usize, pos: usize) -> (r: Result<(usize, Expression), Error>)
    requires
        n == input@.len(),
        pos <= n,
    ensures
        step_matches(r, sp_primary(input@, pos as int), pos as int, n as int),
    decreases n - pos, 0int,
{
    if pos >= n {
        Err(Error::UnexpectedEnd(pos))
    } else {
        let c = input.get_char(pos);
        if c == '(' {
            let inner_pos = skip_ws(input, n, pos + 1);
            match parse_additive(input, n, inner_pos) {
                Ok((p1, inner)) => {
                    if p1 < n && input.get_char(p1) == ')' {
                        let after = skip_ws(input, n, p1 + 1);
                        Ok((after, Expression::Grouped(Box::new(inner))))
                    } else {
                        Err(Error::UnclosedGroup(p1))
                    }
                },
                Err(e) => Err(e),
            }
        } else if is_digit(c) || c == '.' {
            match parse_number(input, n, pos) {
                Ok((p1, num)) => {
                    let after = skip_ws(input, n, p1);
                    Ok((after, Expression::NumberLiteral(num)))
                },
                Err(e) => Err(e),
            }
        } else {
            Err(Error::UnexpectedToken(pos))
        }
    }
}

fn parse_unary(input: &str, n: usize, pos: usize) -> (r: Result<(usize, Expression), Error>)
    requires
        n == input@.len(),
        pos <= n,
    ensures
        step_matches(r, sp_unary(input@, pos as int), pos as int, n as int),
    decreases n - pos, 1int,
{
    if pos < n && input.get_char(pos) == '-' {
        let opnd_pos = skip_ws(input, n, pos + 1);
        match parse_unary(input, n, opnd_pos) {
            Ok((p1, operand)) => Ok(
                (p1, Expression::UnaryOp(UnaryOperator::Negate, Box::new(operand))),
            ),
            Err(e) => Err(e),
        }
    } else {
        parse_primary(input, n, pos)
    }
}

fn parse_mul_rest(input: &str, n: usize, pos: usize, left: Expression) -> (r: Result<
    (usize, Expression),
    Error,
>)
    requires
        n == input@.len(),
        pos <= n,
        left@.wf(),
    ensures
        rest_matches(r, sp_mul_rest(input@, pos as int, left@), pos as int, n as int),
    decreases n - pos, 1int,
{
    if pos < n {
        let c = input.get_char(pos);
        if c == '*' || c == '/' {
            let op = if c == '*' {
                BinaryOperator::Multiply
            } else {
                BinaryOperator::Divide
            };
            let opnd_pos = skip_ws(input, n, pos + 1);
            match parse_unary(input, n, opnd_pos) {
                Ok((p2, right)) => parse_mul_rest(
                    input,
                    n,
                    p2,
                    Expression::BinaryOp(op, Box::new(left), Box::new(right)),
                ),
                Err(e) => Err(e),
            }
        } else {
            Ok((pos, left))
        }
    } else {
        Ok((pos, left))
    }
}

fn parse_multiplicative(input: &str, n: usize, pos: usize) -> (r: Result<
    (usize, Expression),
    Error,
>)
    requires
        n == input@.len(),
        pos <= n,
    ensures
        step_matches(r, sp_multiplicative(input@, pos as int), pos as int, n as int),
    decreases n - pos, 2int,
{
    match parse_unary(input, n, pos) {
        Ok((p1, first)) => parse_mul_rest(input, n, p1, first),
        Err(e) => Err(e),
    }
}

fn parse_add_rest(input: &str, n: usize, pos: usize, left: Expression) -> (r: Result<
    (usize, Expression),
    Error,
>)
    requires
        n == input@.len(),
        pos <= n,
        left@.wf(),
    ensures
        rest_matches(r, sp_add_rest(input@, pos as int, left@), pos as int, n as int),
    decreases n - pos, 2int,
{
    if pos < n {
        let c = input.get_char(pos);
        if c == '+' || c == '-' {
            let op = if c == '+' {
                BinaryOperator::Add
            } else {
                BinaryOperator::Subtract
            };
            let opnd_pos = skip_ws(input, n, pos + 1);
            match parse_multiplicative(input, n, opnd_pos) {
                Ok((p2, right)) => parse_add_rest(
                    input,
                    n,
                    p2,
                    Expression::BinaryOp(op, Box::new(left), Box::new(right)),
                ),
                Err(e) => Err(e),
            }
        } else if !ends_expr(c) {
            Err(Error::UnexpectedToken(pos))
        } else {
            Ok((pos, left))
        }
    } else {
        Ok((pos, left))
    }
}

fn parse_additive(input: &str, n: usize, pos: usize) -> (r: Result<(usize, Expression), Error>)
    requires
        n == input@.len(),
        pos <= n,
    ensures
        step_matches(r, sp_additive(input@, pos as int), pos as int, n as int),
    decreases n - pos, 3int,
{
    match parse_multiplicative(input, n, pos) {
        Ok((p1, first)) => parse_add_rest(input, n, p1, first),
        Err(e) => Err(e),
    }
}

/// Parses one expression from the front of `input`.
///
/// On success, returns the suffix of `input` that the expression (and the
/// whitespace around it) did not consume, together with the tree, exactly as
/// the grammar [`sp_parse_expr`] gives them; every literal in the tree is in
/// canonical digit form. On failure, returns the grammar's error, whose
/// offset points into `input`. The result is a function of `input` alone.
pub fn parse_expr(input: &str) -> (r: Result<(&str, Expression), Error>)
    ensures
        parse_outcome_matches(
            input@,
            match r {
                Ok((rest, tree)) => Ok((rest@, tree@)),
                Err(e) => Err(e),
            },
        ),
        r matches Ok((rest, tree)) ==> tree@.wf(),
        r matches Err(e) ==> e.spec_offset() <= input@.len(),
{
    let n = input.unicode_len();
    let start = skip_ws(input, n, 0);
    match parse_additive(input, n, start) {
        Ok((p, tree)) => Ok((input.substring_char(p, n), tree)),
        Err(e) => Err(e),
    }
}

} // verus!

