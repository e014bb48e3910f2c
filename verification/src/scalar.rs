//! Scalar expressions: per-row computations used inside `Map`, `Filter`,
//! `Join` equivalence classes and `Reduce` keys, together with the
//! null-semantics capabilities the propagation pass consumes: which input
//! columns must be non-null for the expression's result to be non-null,
//! whether the expression is a guaranteed-null literal, and whether its
//! result may be null given the input schema.

use vstd::prelude::*;
use crate::columns::ColumnSet;

verus! {

/// A single value in a row. Only nullness matters to the analysis.
#[derive(Clone, Copy, PartialEq, Eq, Structural, Debug)]
pub enum Datum {
    Null,
    False,
    True,
    Int64(i64),
}

/// Functions of one argument. `IsNull` is the one unary function whose
/// result is defined (never null) on a null argument.
#[derive(Clone, Copy, PartialEq, Eq, Structural, Debug)]
pub enum UnaryFunc {
    Not,
    NegInt64,
    IsNull,
}

impl UnaryFunc {
    /// True when a null argument makes the result null.
    pub open spec fn propagates_nulls_spec(self) -> bool {
        self != UnaryFunc::IsNull
    }

    pub fn propagates_nulls(&self) -> (r: bool)
        ensures
            r == self.propagates_nulls_spec(),
    {
        match self {
            UnaryFunc::IsNull => false,
            _ => true,
        }
    }
}

/// Functions of two arguments. `And` and `Or` follow three-valued logic and
/// can be non-null even with one null argument; the rest are null whenever
/// an argument is.
#[derive(Clone, Copy, PartialEq, Eq, Structural, Debug)]
pub enum BinaryFunc {
    AddInt64,
    Eq,
    Gt,
    And,
    Or,
}

impl BinaryFunc {
    /// True when a null argument makes the result null.
    pub open spec fn propagates_nulls_spec(self) -> bool {
        self != BinaryFunc::And && self != BinaryFunc::Or
    }

    pub fn propagates_nulls(&self) -> (r: bool)
        ensures
            r == self.propagates_nulls_spec(),
    {
        match self {
            BinaryFunc::And => false,
            BinaryFunc::Or => false,
            _ => true,
        }
    }
}

/// A scalar expression: a column reference, a literal, or a function call.
#[derive(PartialEq, Eq, Debug)]
pub enum ScalarExpr {
    Column(usize),
    Literal(Datum),
    CallUnary { func: UnaryFunc, expr: Box<ScalarExpr> },
    CallBinary { func: BinaryFunc, expr1: Box<ScalarExpr>, expr2: Box<ScalarExpr> },
}

impl ScalarExpr {
    /// The input columns that must be non-null for this expression's result
    /// to be non-null: the columns reachable only through null-propagating
    /// functions.
    pub open spec fn non_null_cols(self) -> Set<usize>
        decreases self,
    {
        match self {
            ScalarExpr::Column(c) => Set::empty().insert(c),
            ScalarExpr::Literal(_) => Set::empty(),
            ScalarExpr::CallUnary { func, expr } => {
                if func.propagates_nulls_spec() {
                    expr.non_null_cols()
                } else {
                    Set::empty()
                }
            },
            ScalarExpr::CallBinary { func, expr1, expr2 } => {
                if func.propagates_nulls_spec() {
                    expr1.non_null_cols().union(expr2.non_null_cols())
                } else {
                    Set::empty()
                }
            },
        }
    }

    /// Every column referenced anywhere in the expression is below `n`.
    pub open spec fn cols_bounded(self, n: int) -> bool
        decreases self,
    {
        match self {
            ScalarExpr::Column(c) => c < n,
            ScalarExpr::Literal(_) => true,
            ScalarExpr::CallUnary { func, expr } => expr.cols_bounded(n),
            ScalarExpr::CallBinary { func, expr1, expr2 } => {
                expr1.cols_bounded(n) && expr2.cols_bounded(n)
            },
        }
    }

    /// The non-null requirement columns are among the referenced columns.
    pub proof fn lemma_non_null_cols_bounded(self, n: int)
        requires
            self.cols_bounded(n),
        ensures
            crate::columns::bounded(self.non_null_cols(), n),
        decreases self,
    {
        match self {
            ScalarExpr::CallUnary { func, expr } => {
                expr.lemma_non_null_cols_bounded(n);
            },
            ScalarExpr::CallBinary { func, expr1, expr2 } => {
                expr1.lemma_non_null_cols_bounded(n);
                expr2.lemma_non_null_cols_bounded(n);
            },
            _ => {},
        }
    }

    /// Add to `columns` the input columns that must be non-null for this
    /// expression's result to be non-null.
    pub fn non_null_requirements(&self, columns: &mut ColumnSet)
        ensures
            final(columns)@ == old(columns)@.union(self.non_null_cols()),
        decreases self,
    {
        match self {
            ScalarExpr::Column(c) => {
                columns.insert(*c);
                proof {
                    assert(columns@ =~= old(columns)@.union(self.non_null_cols()));
                }
            },
            ScalarExpr::Literal(_) => {
                proof {
                    assert(columns@ =~= old(columns)@.union(self.non_null_cols()));
                }
            },
            ScalarExpr::CallUnary { func, expr } => {
                if func.propagates_nulls() {
                    expr.non_null_requirements(columns);
                } else {
                    proof {
                        assert(columns@ =~= old(columns)@.union(self.non_null_cols()));
                    }
                }
            },
            ScalarExpr::CallBinary { func, expr1, expr2 } => {
                if func.propagates_nulls() {
                    expr1.non_null_requirements(columns);
                    expr2.non_null_requirements(columns);
                    proof {
                        assert(columns@ =~= old(columns)@.union(self.non_null_cols()));
                    }
                } else {
                    proof {
                        assert(columns@ =~= old(columns)@.union(self.non_null_cols()));
                    }
                }
            },
        }
    }

    /// Whether the expression is the null literal.
    pub open spec fn is_literal_null_spec(self) -> bool {
        self == ScalarExpr::Literal(Datum::Null)
    }

    pub fn is_literal_null(&self) -> (r: bool)
        ensures
            r == self.is_literal_null_spec(),
    {
        match self {
            ScalarExpr::Literal(Datum::Null) => true,
            _ => false,
        }
    }

    /// Whether the expression's result may be null, given per-column
    /// nullability of the input schema. Conservative: a null-propagating
    /// function is nullable when any argument is; `IsNull` never is; other
    /// non-propagating functions are taken as nullable.
    pub open spec fn nullable_spec(self, input: Seq<bool>) -> bool
        decreases self,
    {
        match self {
            ScalarExpr::Column(c) => c >= input.len() || input[c as int],
            ScalarExpr::Literal(d) => d == Datum::Null,
            ScalarExpr::CallUnary { func, expr } => {
                if func == UnaryFunc::IsNull {
                    false
                } else {
                    expr.nullable_spec(input)
                }
            },
            ScalarExpr::CallBinary { func, expr1, expr2 } => {
                if func.propagates_nulls_spec() {
                    expr1.nullable_spec(input) || expr2.nullable_spec(input)
                } else {
                    true
                }
            },
        }
    }

    pub fn nullable(&self, input: &Vec<bool>) -> (r: bool)
        requires
            self.cols_bounded(input@.len() as int),
        ensures
            r == self.nullable_spec(input@),
        decreases self,
    {
        match self {
            ScalarExpr::Column(c) => input[*c],
            ScalarExpr::Literal(d) => match d {
                Datum::Null => true,
                _ => false,
            },
            ScalarExpr::CallUnary { func, expr } => {
                match func {
                    UnaryFunc::IsNull => false,
                    _ => expr.nullable(input),
                }
            },
            ScalarExpr::CallBinary { func, expr1, expr2 } => {
                if func.propagates_nulls() {
                    if expr1.nullable(input) {
                        true
                    } else {
                        expr2.nullable(input)
                    }
                } else {
                    true
                }
            },
        }
    }
}

} // verus!
