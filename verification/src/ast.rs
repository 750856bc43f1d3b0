use vstd::prelude::*;

verus! {

/// The unary operators of the expression language.
#[derive(Debug, Clone, Copy, PartialEq, Eq, Structural)]
pub enum UnaryOperator {
    Negate,
}

/// The binary operators of the expression language.
#[derive(Debug, Clone, Copy, PartialEq, Eq, Structural)]
pub enum BinaryOperator {
    Add,
    Subtract,
    Multiply,
    Divide,
}

/// A non-negative decimal quantity, kept in canonical digit form: the integer
/// part carries no leading zero and the fractional part no trailing zero, so
/// that structural equality of two `Number`s coincides with numeric equality
/// of the literals they came from. Zero is the pair of two empty digit
/// sequences. Every element is a digit value between 0 and 9.
///
/// A leading sign is never part of a `Number`; negation is represented by
/// [`UnaryOperator::Negate`] in the surrounding tree.
#[derive(Debug, PartialEq, Eq)]
pub struct Number {
    pub int_digits: Vec<u8>,
    pub frac_digits: Vec<u8>,
}

/// An expression tree. The tree is finite and acyclic; every node owns its
/// children outright, and a node is never mutated once constructed.
/// `Grouped` keeps an explicitly parenthesized sub-expression as its own
/// node, so the debug rendering can tell explicit grouping apart from
/// precedence-implied grouping.
#[derive(Debug, PartialEq, Eq)]
pub enum Expression {
    NumberLiteral(Number),
    UnaryOp(UnaryOperator, Box<Expression>),
    BinaryOp(BinaryOperator, Box<Expression>, Box<Expression>),
    Grouped(Box<Expression>),
}

/// The mathematical model of a [`Number`]: its two digit sequences.
pub struct SpecNumber {
    pub int_digits: Seq<u8>,
    pub frac_digits: Seq<u8>,
}

/// The mathematical model of an [`Expression`].
pub enum SpecExpr {
    NumberLiteral(SpecNumber),
    UnaryOp(UnaryOperator, Box<SpecExpr>),
    BinaryOp(BinaryOperator, Box<SpecExpr>, Box<SpecExpr>),
    Grouped(Box<SpecExpr>),
}

/// Every element of `d` is a digit value, between 0 and 9.
pub open spec fn digits_wf(d: Seq<u8>) -> bool {
    forall|i: int| 0 <= i < d.len() ==> d[i] <= 9
}

/// The canonical form of an integer part: leading zeros stripped.
pub open spec fn trim_leading_zeros(d: Seq<u8>) -> Seq<u8>
    decreases d.len(),
{
    if d.len() > 0 && d[0] == 0 {
        trim_leading_zeros(d.skip(1))
    } else {
        d
    }
}

/// The canonical form of a fractional part: trailing zeros stripped.
pub open spec fn trim_trailing_zeros(d: Seq<u8>) -> Seq<u8>
    decreases d.len(),
{
    if d.len() > 0 && d[d.len() - 1] == 0 {
        trim_trailing_zeros(d.drop_last())
    } else {
        d
    }
}

/// Stripping leading zeros keeps exactly the suffix that starts at the first
/// non-zero digit.
pub proof fn lemma_trim_leading_zeros(d: Seq<u8>, k: int)
    requires
        0 <= k <= d.len(),
        forall|i: int| 0 <= i < k ==> d[i] == 0,
        k == d.len() || d[k] != 0,
    ensures
        trim_leading_zeros(d) == d.subrange(k, d.len() as int),
    decreases k,
{
    if k == 0 {
        assert(d.subrange(0, d.len() as int) =~= d);
    } else {
        lemma_trim_leading_zeros(d.skip(1), k - 1);
        assert(d.skip(1).subrange(k - 1, d.skip(1).len() as int) =~= d.subrange(
            k,
            d.len() as int,
        ));
    }
}

/// Stripping trailing zeros keeps exactly the prefix that ends after the last
/// non-zero digit.
pub proof fn lemma_trim_trailing_zeros(d: Seq<u8>, m: int)
    requires
        0 <= m <= d.len(),
        forall|i: int| m <= i < d.len() ==> d[i] == 0,
        m == 0 || d[m - 1] != 0,
    ensures
        trim_trailing_zeros(d) == d.subrange(0, m),
    decreases d.len(),
{
    if d.len() > m {
        lemma_trim_trailing_zeros(d.drop_last(), m);
        assert(d.drop_last().subrange(0, m) =~= d.subrange(0, m));
    } else {
        assert(d.subrange(0, m) =~= d);
    }
}

impl SpecNumber {
    /// Well-formedness: digit values only, and the canonical digit form.
    pub open spec fn wf(self) -> bool {
        &&& digits_wf(self.int_digits)
        &&& digits_wf(self.frac_digits)
        &&& (self.int_digits.len() > 0 ==> self.int_digits[0] != 0)
        &&& (self.frac_digits.len() > 0 ==> self.frac_digits[self.frac_digits.len() - 1] != 0)
    }
}

impl SpecExpr {
    /// Well-formedness of a tree: every literal in it is canonical.
    pub open spec fn wf(self) -> bool
        decreases self,
    {
        match self {
            SpecExpr::NumberLiteral(n) => n.wf(),
            SpecExpr::UnaryOp(_, operand) => (*operand).wf(),
            SpecExpr::BinaryOp(_, left, right) => (*left).wf() && (*right).wf(),
            SpecExpr::Grouped(inner) => (*inner).wf(),
        }
    }
}

impl Number {
    /// Builds a `Number` in canonical form from raw digit sequences, as they
    /// stand in a literal: leading zeros of the integer part and trailing
    /// zeros of the fractional part are stripped.
    pub fn new(int_digits: Vec<u8>, frac_digits: Vec<u8>) -> (n: Number)
        requires
            digits_wf(int_digits@),
            digits_wf(frac_digits@),
        ensures
            n@.int_digits == trim_leading_zeros(int_digits@),
            n@.frac_digits == trim_trailing_zeros(frac_digits@),
            n@.wf(),
    {
        let mut k: usize = 0;
        while k < int_digits.len() && int_digits[k] == 0
            invariant
                0 <= k <= int_digits@.len(),
                forall|i: int| 0 <= i < k ==> int_digits@[i] == 0,
            decreases int_digits@.len() - k,
        {
            k = k + 1;
        }
        let mut ip: Vec<u8> = Vec::new();
        let mut i: usize = k;
        while i < int_digits.len()
            invariant
                k <= i <= int_digits@.len(),
                ip@ == int_digits@.subrange(k as int, i as int),
            decreases int_digits@.len() - i,
        {
            ip.push(int_digits[i]);
            i = i + 1;
            proof {
                assert(ip@ =~= int_digits@.subrange(k as int, i as int));
            }
        }
        let mut m: usize = frac_digits.len();
        while m > 0 && frac_digits[m - 1] == 0
            invariant
                0 <= m <= frac_digits@.len(),
                forall|i: int| m <= i < frac_digits@.len() ==> frac_digits@[i] == 0,
            decreases m,
        {
            m = m - 1;
        }
        let mut fp: Vec<u8> = Vec::new();
        let mut j: usize = 0;
        while j < m
            invariant
                0 <= j <= m <= frac_digits@.len(),
                fp@ == frac_digits@.subrange(0, j as int),
            decreases m - j,
        {
            fp.push(frac_digits[j]);
            j = j + 1;
            proof {
                assert(fp@ =~= frac_digits@.subrange(0, j as int));
            }
        }
        proof {
            lemma_trim_leading_zeros(int_digits@, k as int);
            lemma_trim_trailing_zeros(frac_digits@, m as int);
        }
        Number { int_digits: ip, frac_digits: fp }
    }
}

impl View for Number {
    type V = SpecNumber;

    open spec fn view(&self) -> SpecNumber {
        SpecNumber { int_digits: self.int_digits@, frac_digits: self.frac_digits@ }
    }
}

/// The model of an [`Expression`], node by node.
pub open spec fn spec_expr_of(e: Expression) -> SpecExpr
    decreases e,
{
    match e {
        Expression::NumberLiteral(n) => SpecExpr::NumberLiteral(n@),
        Expression::UnaryOp(op, operand) => SpecExpr::UnaryOp(op, Box::new(spec_expr_of(*operand))),
        Expression::BinaryOp(op, left, right) => SpecExpr::BinaryOp(
            op,
            Box::new(spec_expr_of(*left)),
            Box::new(spec_expr_of(*right)),
        ),
        Expression::Grouped(inner) => SpecExpr::Grouped(Box::new(spec_expr_of(*inner))),
    }
}

impl View for Expression {
    type V = SpecExpr;

    open spec fn view(&self) -> SpecExpr {
        spec_expr_of(*self)
    }
}

} // verus!
