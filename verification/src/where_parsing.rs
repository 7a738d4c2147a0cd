//! The `WHERE` expression engine: raw text is cut at operator boundaries,
//! tokenized, classified, and converted from infix to a postfix instruction
//! sequence by shunting-yard over a fixed precedence table; evaluation walks
//! the postfix sequence against one record with an explicit value stack.

use vstd::prelude::*;
use vstd::string::{StrSliceExecFns, StringExecFns};
use crate::errors::{ErrModel, MyDatabaseError};
use crate::float_bits::{
    f64_add_bits, f64_add, f64_div_bits, f64_div, f64_from_i64, f64_from_text, f64_is_zero,
    f64_mul_bits, f64_mul, f64_of_i64, f64_sub_bits, f64_sub, f64_zero_test, parse_f64_bits,
};
use crate::strmap::{assoc_lookup, Record, StrKeyMap};
use crate::tokenizer::{
    split_by_operators_preserving_quotes, split_ops_model, split_preserving_quote_insides,
    split_quoted_model, str_eq, str_views,
};
use crate::values::{
    bigger_than_model, coerced_eq_model, is_false_ci, is_false_token, is_true_ci, is_true_token,
    Value, ValueModel, ValueType,
};

verus! {

#[derive(Debug, Clone, Copy, PartialEq, Eq, Structural)]
pub enum ComparisonOperator {
    Equal,
    NotEqual,
    GreaterThan,
    LessThan,
    GreaterThanOrEqual,
    LessThanOrEqual,
}

#[derive(Debug, Clone, Copy, PartialEq, Eq, Structural)]
pub enum LogicalOperator {
    And,
    Or,
}

#[derive(Debug, Clone, Copy, PartialEq, Eq, Structural)]
pub enum MathOperator {
    Add,
    Subtract,
    Multiply,
    Divide,
}

#[derive(Debug, Clone, Copy, PartialEq, Eq, Structural)]
pub enum AnyOperator {
    Comparison(ComparisonOperator),
    Logical(LogicalOperator),
    Math(MathOperator),
}

/// What a comparison yields: equality never fails, ordering comparisons fail
/// on pairings without an order.
pub open spec fn comparison_eval_model(
    op: ComparisonOperator,
    a: ValueModel,
    b: ValueModel,
) -> Result<ValueModel, ErrModel> {
    match op {
        ComparisonOperator::Equal => Ok(ValueModel::Bool(coerced_eq_model(a, b))),
        ComparisonOperator::NotEqual => Ok(ValueModel::Bool(!coerced_eq_model(a, b))),
        ComparisonOperator::GreaterThan => match bigger_than_model(a, b) {
            Some(x) => Ok(ValueModel::Bool(x)),
            None => Err(ErrModel::CannotCompareValues),
        },
        ComparisonOperator::LessThan => match bigger_than_model(b, a) {
            Some(x) => Ok(ValueModel::Bool(x)),
            None => Err(ErrModel::CannotCompareValues),
        },
        ComparisonOperator::GreaterThanOrEqual => match bigger_than_model(a, b) {
            Some(x) => Ok(ValueModel::Bool(x || coerced_eq_model(a, b))),
            None => Err(ErrModel::CannotCompareValues),
        },
        ComparisonOperator::LessThanOrEqual => match bigger_than_model(b, a) {
            Some(x) => Ok(ValueModel::Bool(x || coerced_eq_model(b, a))),
            None => Err(ErrModel::CannotCompareValues),
        },
    }
}

impl ComparisonOperator {
    pub fn evaluate(&self, v1: &Value, v2: &Value) -> (r: Result<Value, MyDatabaseError>)
        ensures
            match r {
                Ok(v) => comparison_eval_model(*self, v1@, v2@) == Ok::<ValueModel, ErrModel>(v@),
                Err(e) => comparison_eval_model(*self, v1@, v2@) == Err::<ValueModel, ErrModel>(
                    e@,
                ),
            },
    {
        let result = match self {
            ComparisonOperator::Equal => v1.is_equal_to(v2),
            ComparisonOperator::NotEqual => !v1.is_equal_to(v2),
            ComparisonOperator::GreaterThan => match v1.is_bigger_than(v2) {
                Ok(b) => b,
                Err(e) => {
                    return Err(e);
                },
            },
            ComparisonOperator::LessThan => match v2.is_bigger_than(v1) {
                Ok(b) => b,
                Err(e) => {
                    return Err(e);
                },
            },
            ComparisonOperator::GreaterThanOrEqual => match v1.is_bigger_than(v2) {
                Ok(b) => b || v1.is_equal_to(v2),
                Err(e) => {
                    return Err(e);
                },
            },
            ComparisonOperator::LessThanOrEqual => match v2.is_bigger_than(v1) {
                Ok(b) => b || v2.is_equal_to(v1),
                Err(e) => {
                    return Err(e);
                },
            },
        };
        Ok(Value::Bool(result))
    }
}

/// AND/OR demand two booleans and fail on anything else.
pub open spec fn logical_eval_model(op: LogicalOperator, a: ValueModel, b: ValueModel) -> Result<
    ValueModel,
    ErrModel,
> {
    match (a, b) {
        (ValueModel::Bool(b1), ValueModel::Bool(b2)) => match op {
            LogicalOperator::And => Ok(ValueModel::Bool(b1 && b2)),
            LogicalOperator::Or => Ok(ValueModel::Bool(b1 || b2)),
        },
        _ => Err(ErrModel::InvalidLogicalOperation),
    }
}

impl LogicalOperator {
    pub fn evaluate(&self, v1: &Value, v2: &Value) -> (r: Result<Value, MyDatabaseError>)
        ensures
            match r {
                Ok(v) => logical_eval_model(*self, v1@, v2@) == Ok::<ValueModel, ErrModel>(v@),
                Err(e) => logical_eval_model(*self, v1@, v2@) == Err::<ValueModel, ErrModel>(e@),
            },
    {
        match (v1, v2) {
            (Value::Bool(b1), Value::Bool(b2)) => {
                let result = match self {
                    LogicalOperator::And => *b1 && *b2,
                    LogicalOperator::Or => *b1 || *b2,
                };
                Ok(Value::Bool(result))
            },
            _ => Err(MyDatabaseError::InvalidLogicalOperation),
        }
    }
}

/// Truncating 64-bit division that wraps the one overflowing case
/// (`i64::MIN / -1`) back to `i64::MIN`.
pub open spec fn i64_div_wrap(a: i64, b: i64) -> i64 {
    match i64::checked_div(a, b) {
        Some(q) => q,
        None => i64::MIN,
    }
}

fn i64_div_exec(a: i64, b: i64) -> (r: i64)
    requires
        b != 0,
    ensures
        r == i64_div_wrap(a, b),
{
    match a.checked_div(b) {
        Some(q) => q,
        None => i64::MIN,
    }
}

/// Arithmetic demands two numbers: Int/Int stays an Int under wrapping 64-bit
/// arithmetic, every other numeric pairing is computed as doubles after
/// coercion; division by an (exact) zero divisor fails.
pub open spec fn math_eval_model(op: MathOperator, a: ValueModel, b: ValueModel) -> Result<
    ValueModel,
    ErrModel,
> {
    match (a, b) {
        (ValueModel::Float(f1), ValueModel::Float(f2)) => match op {
            MathOperator::Add => Ok(ValueModel::Float(f64_add_bits(f1, f2))),
            MathOperator::Subtract => Ok(ValueModel::Float(f64_sub_bits(f1, f2))),
            MathOperator::Multiply => Ok(ValueModel::Float(f64_mul_bits(f1, f2))),
            MathOperator::Divide => if f64_is_zero(f2) {
                Err(ErrModel::DivisionByZero)
            } else {
                Ok(ValueModel::Float(f64_div_bits(f1, f2)))
            },
        },
        (ValueModel::Int(i1), ValueModel::Int(i2)) => match op {
            MathOperator::Add => Ok(ValueModel::Int(i1.wrapping_add(i2))),
            MathOperator::Subtract => Ok(ValueModel::Int(i1.wrapping_sub(i2))),
            MathOperator::Multiply => Ok(ValueModel::Int(i1.wrapping_mul(i2))),
            MathOperator::Divide => if i2 == 0 {
                Err(ErrModel::DivisionByZero)
            } else {
                Ok(ValueModel::Int(i64_div_wrap(i1, i2)))
            },
        },
        (ValueModel::Int(i1), ValueModel::Float(f2)) => match op {
            MathOperator::Add => Ok(ValueModel::Float(f64_add_bits(f64_of_i64(i1), f2))),
            MathOperator::Subtract => Ok(ValueModel::Float(f64_sub_bits(f64_of_i64(i1), f2))),
            MathOperator::Multiply => Ok(ValueModel::Float(f64_mul_bits(f64_of_i64(i1), f2))),
            MathOperator::Divide => if f64_is_zero(f2) {
                Err(ErrModel::DivisionByZero)
            } else {
                Ok(ValueModel::Float(f64_div_bits(f64_of_i64(i1), f2)))
            },
        },
        (ValueModel::Float(f1), ValueModel::Int(i2)) => match op {
            MathOperator::Add => Ok(ValueModel::Float(f64_add_bits(f1, f64_of_i64(i2)))),
            MathOperator::Subtract => Ok(ValueModel::Float(f64_sub_bits(f1, f64_of_i64(i2)))),
            MathOperator::Multiply => Ok(ValueModel::Float(f64_mul_bits(f1, f64_of_i64(i2)))),
            MathOperator::Divide => if i2 == 0 {
                Err(ErrModel::DivisionByZero)
            } else {
                Ok(ValueModel::Float(f64_div_bits(f1, f64_of_i64(i2))))
            },
        },
        _ => Err(ErrModel::InvalidMathOperation),
    }
}

impl MathOperator {
    pub fn evaluate(&self, v1: &Value, v2: &Value) -> (r: Result<Value, MyDatabaseError>)
        ensures
            match r {
                Ok(v) => math_eval_model(*self, v1@, v2@) == Ok::<ValueModel, ErrModel>(v@),
                Err(e) => math_eval_model(*self, v1@, v2@) == Err::<ValueModel, ErrModel>(e@),
            },
    {
        match (v1, v2) {
            (Value::Float(f1), Value::Float(f2)) => {
                let result = match self {
                    MathOperator::Add => f64_add(*f1, *f2),
                    MathOperator::Subtract => f64_sub(*f1, *f2),
                    MathOperator::Multiply => f64_mul(*f1, *f2),
                    MathOperator::Divide => {
                        if f64_zero_test(*f2) {
                            return Err(MyDatabaseError::DivisionByZero);
                        }
                        f64_div(*f1, *f2)
                    },
                };
                Ok(Value::Float(result))
            },
            (Value::Int(i1), Value::Int(i2)) => {
                let result = match self {
                    MathOperator::Add => i1.wrapping_add(*i2),
                    MathOperator::Subtract => i1.wrapping_sub(*i2),
                    MathOperator::Multiply => i1.wrapping_mul(*i2),
                    MathOperator::Divide => {
                        if *i2 == 0 {
                            return Err(MyDatabaseError::DivisionByZero);
                        }
                        i64_div_exec(*i1, *i2)
                    },
                };
                Ok(Value::Int(result))
            },
            (Value::Int(i1), Value::Float(f2)) => {
                let f1 = f64_from_i64(*i1);
                let result = match self {
                    MathOperator::Add => f64_add(f1, *f2),
                    MathOperator::Subtract => f64_sub(f1, *f2),
                    MathOperator::Multiply => f64_mul(f1, *f2),
                    MathOperator::Divide => {
                        if f64_zero_test(*f2) {
                            return Err(MyDatabaseError::DivisionByZero);
                        }
                        f64_div(f1, *f2)
                    },
                };
                Ok(Value::Float(result))
            },
            (Value::Float(f1), Value::Int(i2)) => {
                let result = match self {
                    MathOperator::Add => f64_add(*f1, f64_from_i64(*i2)),
                    MathOperator::Subtract => f64_sub(*f1, f64_from_i64(*i2)),
                    MathOperator::Multiply => f64_mul(*f1, f64_from_i64(*i2)),
                    MathOperator::Divide => {
                        if *i2 == 0 {
                            return Err(MyDatabaseError::DivisionByZero);
                        }
                        f64_div(*f1, f64_from_i64(*i2))
                    },
                };
                Ok(Value::Float(result))
            },
            _ => Err(MyDatabaseError::InvalidMathOperation),
        }
    }
}

pub open spec fn any_eval_model(op: AnyOperator, a: ValueModel, b: ValueModel) -> Result<
    ValueModel,
    ErrModel,
> {
    match op {
        AnyOperator::Comparison(c) => comparison_eval_model(c, a, b),
        AnyOperator::Logical(l) => logical_eval_model(l, a, b),
        AnyOperator::Math(m) => math_eval_model(m, a, b),
    }
}

impl AnyOperator {
    pub fn evaluate(&self, v1: &Value, v2: &Value) -> (r: Result<Value, MyDatabaseError>)
        ensures
            match r {
                Ok(v) => any_eval_model(*self, v1@, v2@) == Ok::<ValueModel, ErrModel>(v@),
                Err(e) => any_eval_model(*self, v1@, v2@) == Err::<ValueModel, ErrModel>(e@),
            },
    {
        match self {
            AnyOperator::Comparison(op) => op.evaluate(v1, v2),
            AnyOperator::Logical(op) => op.evaluate(v1, v2),
            AnyOperator::Math(op) => op.evaluate(v1, v2),
        }
    }
}

/// Mathematical shape of a clause element.
pub enum ClauseModel {
    OpeningBracket,
    ClosingBracket,
    Operator(AnyOperator),
    ColumnIdentifier(Seq<char>),
    Constant(ValueModel),
}

/// One element of a (possibly still infix) clause: a bracket, an operator, a
/// column of the owning table's schema, or a literal constant.
#[derive(Debug)]
pub enum ClauseElement {
    OpeningBracket,
    ClosingBracket,
    Operator(AnyOperator),
    ColumnIdentifier(String),
    Constant(Value),
}

impl View for ClauseElement {
    type V = ClauseModel;

    open spec fn view(&self) -> ClauseModel {
        match self {
            ClauseElement::OpeningBracket => ClauseModel::OpeningBracket,
            ClauseElement::ClosingBracket => ClauseModel::ClosingBracket,
            ClauseElement::Operator(op) => ClauseModel::Operator(*op),
            ClauseElement::ColumnIdentifier(s) => ClauseModel::ColumnIdentifier(s@),
            ClauseElement::Constant(v) => ClauseModel::Constant(v@),
        }
    }
}

impl ClauseElement {
    /// An owned copy of the element.
    pub fn dup(&self) -> (r: ClauseElement)
        ensures
            r@ == self@,
    {
        match self {
            ClauseElement::OpeningBracket => ClauseElement::OpeningBracket,
            ClauseElement::ClosingBracket => ClauseElement::ClosingBracket,
            ClauseElement::Operator(op) => ClauseElement::Operator(*op),
            ClauseElement::ColumnIdentifier(s) => ClauseElement::ColumnIdentifier(s.clone()),
            ClauseElement::Constant(v) => ClauseElement::Constant(v.dup()),
        }
    }
}

/// Binding strength: OR binds loosest, then AND, comparisons, additive and
/// multiplicative operators; brackets and operands stand outside the scale.
pub open spec fn importance_model(e: ClauseModel) -> int {
    match e {
        ClauseModel::OpeningBracket | ClauseModel::ClosingBracket => -1,
        ClauseModel::Operator(AnyOperator::Logical(op)) => match op {
            LogicalOperator::And => 1,
            LogicalOperator::Or => 0,
        },
        ClauseModel::Operator(AnyOperator::Comparison(_)) => 2,
        ClauseModel::Operator(AnyOperator::Math(op)) => match op {
            MathOperator::Add | MathOperator::Subtract => 3,
            MathOperator::Multiply | MathOperator::Divide => 4,
        },
        ClauseModel::ColumnIdentifier(_) | ClauseModel::Constant(_) => 10,
    }
}

impl ClauseElement {
    pub fn get_importance(&self) -> (r: i8)
        ensures
            r as int == importance_model(self@),
    {
        match self {
            ClauseElement::OpeningBracket | ClauseElement::ClosingBracket => -1,
            ClauseElement::Operator(AnyOperator::Logical(op)) => match op {
                LogicalOperator::And => 1,
                LogicalOperator::Or => 0,
            },
            ClauseElement::Operator(AnyOperator::Comparison(_)) => 2,
            ClauseElement::Operator(AnyOperator::Math(op)) => match op {
                MathOperator::Add | MathOperator::Subtract => 3,
                MathOperator::Multiply | MathOperator::Divide => 4,
            },
            ClauseElement::ColumnIdentifier(_) | ClauseElement::Constant(_) => 10,
        }
    }
}

/// The operator substrings the tokenizer cuts at, longest first so that `>=`
/// wins over `>`.
pub open spec fn where_ops_model() -> Seq<Seq<char>> {
    seq![
        ">="@,
        "<="@,
        "!="@,
        "AND"@,
        "OR"@,
        "="@,
        ">"@,
        "<"@,
        "+"@,
        "-"@,
        "*"@,
        "/"@,
        "("@,
        ")"@,
    ]
}

/// The tokens joined back into one text with a space after each.
pub open spec fn join_spaced(toks: Seq<Seq<char>>) -> Seq<char>
    decreases toks.len(),
{
    if toks.len() == 0 {
        Seq::empty()
    } else {
        join_spaced(toks.drop_last()) + toks.last() + seq![' ']
    }
}

/// The token stream of a clause: pad every operator occurrence outside quotes
/// with whitespace, then split on whitespace keeping double-quoted spans
/// atomic.
pub open spec fn where_tokens_model(s: Seq<char>) -> Seq<Seq<char>> {
    split_quoted_model(join_spaced(split_ops_model(s, where_ops_model())), ' ')
}

/// How one token reads: a bracket, an operator, a schema column, a numeric
/// literal (always a Float), a case-insensitive boolean literal, or a
/// double-quoted string; anything else is a format error.
pub open spec fn classify_model(tok: Seq<char>, schema: Seq<(Seq<char>, ValueType)>) -> Result<
    ClauseModel,
    ErrModel,
> {
    if tok == "("@ {
        Ok(ClauseModel::OpeningBracket)
    } else if tok == ")"@ {
        Ok(ClauseModel::ClosingBracket)
    } else if tok == "="@ {
        Ok(ClauseModel::Operator(AnyOperator::Comparison(ComparisonOperator::Equal)))
    } else if tok == "!="@ {
        Ok(ClauseModel::Operator(AnyOperator::Comparison(ComparisonOperator::NotEqual)))
    } else if tok == ">"@ {
        Ok(ClauseModel::Operator(AnyOperator::Comparison(ComparisonOperator::GreaterThan)))
    } else if tok == "<"@ {
        Ok(ClauseModel::Operator(AnyOperator::Comparison(ComparisonOperator::LessThan)))
    } else if tok == ">="@ {
        Ok(ClauseModel::Operator(AnyOperator::Comparison(ComparisonOperator::GreaterThanOrEqual)))
    } else if tok == "<="@ {
        Ok(ClauseModel::Operator(AnyOperator::Comparison(ComparisonOperator::LessThanOrEqual)))
    } else if tok == "AND"@ {
        Ok(ClauseModel::Operator(AnyOperator::Logical(LogicalOperator::And)))
    } else if tok == "OR"@ {
        Ok(ClauseModel::Operator(AnyOperator::Logical(LogicalOperator::Or)))
    } else if tok == "+"@ {
        Ok(ClauseModel::Operator(AnyOperator::Math(MathOperator::Add)))
    } else if tok == "-"@ {
        Ok(ClauseModel::Operator(AnyOperator::Math(MathOperator::Subtract)))
    } else if tok == "*"@ {
        Ok(ClauseModel::Operator(AnyOperator::Math(MathOperator::Multiply)))
    } else if tok == "/"@ {
        Ok(ClauseModel::Operator(AnyOperator::Math(MathOperator::Divide)))
    } else if assoc_lookup(schema, tok) is Some {
        Ok(ClauseModel::ColumnIdentifier(tok))
    } else if f64_from_text(tok) is Some {
        Ok(ClauseModel::Constant(ValueModel::Float(f64_from_text(tok)->Some_0)))
    } else if is_true_ci(tok) {
        Ok(ClauseModel::Constant(ValueModel::Bool(true)))
    } else if is_false_ci(tok) {
        Ok(ClauseModel::Constant(ValueModel::Bool(false)))
    } else if tok.len() >= 2 && tok[0] == '"' && tok.last() == '"' {
        Ok(ClauseModel::Constant(ValueModel::String(tok.subrange(1, tok.len() - 1))))
    } else {
        Err(ErrModel::InvalidWhereClauseFormat("Unknown token in WHERE clause: "@ + tok))
    }
}

/// The classification of every token from position `i` on, stopping at the
/// first token that fails.
pub open spec fn classify_from_model(
    toks: Seq<Seq<char>>,
    i: int,
    schema: Seq<(Seq<char>, ValueType)>,
) -> Result<Seq<ClauseModel>, ErrModel>
    decreases toks.len() - i,
{
    if i < 0 || i >= toks.len() {
        Ok(Seq::empty())
    } else {
        match classify_model(toks[i], schema) {
            Err(e) => Err(e),
            Ok(c) => match classify_from_model(toks, i + 1, schema) {
                Err(e) => Err(e),
                Ok(rest) => Ok(seq![c] + rest),
            },
        }
    }
}

/// Pop operators to the output until the matching opening bracket, which is
/// discarded; fails when the stack has no opening bracket.
pub open spec fn pop_until_open(stack: Seq<ClauseModel>, out: Seq<ClauseModel>) -> Option<
    (Seq<ClauseModel>, Seq<ClauseModel>),
>
    decreases stack.len(),
{
    if stack.len() == 0 {
        None
    } else if stack.last() is OpeningBracket {
        Some((stack.drop_last(), out))
    } else {
        pop_until_open(stack.drop_last(), out.push(stack.last()))
    }
}

/// Pop every stack-top operator whose binding strength is at least `imp` to
/// the output.
pub open spec fn pop_ge(stack: Seq<ClauseModel>, out: Seq<ClauseModel>, imp: int) -> (
    Seq<ClauseModel>,
    Seq<ClauseModel>,
)
    decreases stack.len(),
{
    if stack.len() == 0 {
        (stack, out)
    } else if importance_model(stack.last()) >= imp {
        pop_ge(stack.drop_last(), out.push(stack.last()), imp)
    } else {
        (stack, out)
    }
}

/// Empty the operator stack into the output at end of input; a leftover
/// opening bracket means a closing bracket was missing.
pub open spec fn drain_stack(stack: Seq<ClauseModel>, out: Seq<ClauseModel>) -> Result<
    Seq<ClauseModel>,
    ErrModel,
>
    decreases stack.len(),
{
    if stack.len() == 0 {
        Ok(out)
    } else if stack.last() is OpeningBracket {
        Err(ErrModel::InvalidWhereClauseFormat("Closing bracket missing"@))
    } else {
        drain_stack(stack.drop_last(), out.push(stack.last()))
    }
}

/// Shunting-yard, from element `i` on: operands go straight to the output, a
/// closing bracket pops to its opening bracket, an opening bracket is pushed,
/// and an operator first pops every operator that binds at least as tightly.
pub open spec fn shunt_model(
    elems: Seq<ClauseModel>,
    i: int,
    stack: Seq<ClauseModel>,
    out: Seq<ClauseModel>,
) -> Result<Seq<ClauseModel>, ErrModel>
    decreases elems.len() - i,
{
    if i < 0 || i >= elems.len() {
        drain_stack(stack, out)
    } else {
        match elems[i] {
            ClauseModel::ColumnIdentifier(_) | ClauseModel::Constant(_) => shunt_model(
                elems,
                i + 1,
                stack,
                out.push(elems[i]),
            ),
            ClauseModel::ClosingBracket => match pop_until_open(stack, out) {
                None => Err(ErrModel::InvalidWhereClauseFormat("Opening bracket missing"@)),
                Some(p) => shunt_model(elems, i + 1, p.0, p.1),
            },
            ClauseModel::OpeningBracket => shunt_model(elems, i + 1, stack.push(elems[i]), out),
            ClauseModel::Operator(_) => {
                let p = pop_ge(stack, out, importance_model(elems[i]));
                shunt_model(elems, i + 1, p.0.push(elems[i]), p.1)
            },
        }
    }
}

/// The postfix instruction sequence of a clause, bound to a schema.
pub open spec fn where_clause_model(s: Seq<char>, schema: Seq<(Seq<char>, ValueType)>) -> Result<
    Seq<ClauseModel>,
    ErrModel,
> {
    match classify_from_model(where_tokens_model(s), 0, schema) {
        Err(e) => Err(e),
        Ok(elems) => shunt_model(elems, 0, Seq::empty(), Seq::empty()),
    }
}

/// A validated, flattened postfix clause; brackets never survive parsing.
#[derive(Debug)]
pub struct WhereClause {
    onp_elements: Vec<ClauseElement>,
}

impl View for WhereClause {
    type V = Seq<ClauseModel>;

    closed spec fn view(&self) -> Seq<ClauseModel> {
        self.onp_elements@.map_values(|e: ClauseElement| e@)
    }
}

fn classify(tok: &str, columns: &StrKeyMap<ValueType>) -> (r: Result<
    ClauseElement,
    MyDatabaseError,
>)
    ensures
        match r {
            Ok(c) => classify_model(tok@, columns@) == Ok::<ClauseModel, ErrModel>(c@),
            Err(e) => classify_model(tok@, columns@) == Err::<ClauseModel, ErrModel>(e@),
        },
{
    if str_eq(tok, "(") {
        Ok(ClauseElement::OpeningBracket)
    } else if str_eq(tok, ")") {
        Ok(ClauseElement::ClosingBracket)
    } else if str_eq(tok, "=") {
        Ok(ClauseElement::Operator(AnyOperator::Comparison(ComparisonOperator::Equal)))
    } else if str_eq(tok, "!=") {
        Ok(ClauseElement::Operator(AnyOperator::Comparison(ComparisonOperator::NotEqual)))
    } else if str_eq(tok, ">") {
        Ok(ClauseElement::Operator(AnyOperator::Comparison(ComparisonOperator::GreaterThan)))
    } else if str_eq(tok, "<") {
        Ok(ClauseElement::Operator(AnyOperator::Comparison(ComparisonOperator::LessThan)))
    } else if str_eq(tok, ">=") {
        Ok(ClauseElement::Operator(AnyOperator::Comparison(
            ComparisonOperator::GreaterThanOrEqual,
        )))
    } else if str_eq(tok, "<=") {
        Ok(ClauseElement::Operator(AnyOperator::Comparison(ComparisonOperator::LessThanOrEqual)))
    } else if str_eq(tok, "AND") {
        Ok(ClauseElement::Operator(AnyOperator::Logical(LogicalOperator::And)))
    } else if str_eq(tok, "OR") {
        Ok(ClauseElement::Operator(AnyOperator::Logical(LogicalOperator::Or)))
    } else if str_eq(tok, "+") {
        Ok(ClauseElement::Operator(AnyOperator::Math(MathOperator::Add)))
    } else if str_eq(tok, "-") {
        Ok(ClauseElement::Operator(AnyOperator::Math(MathOperator::Subtract)))
    } else if str_eq(tok, "*") {
        Ok(ClauseElement::Operator(AnyOperator::Math(MathOperator::Multiply)))
    } else if str_eq(tok, "/") {
        Ok(ClauseElement::Operator(AnyOperator::Math(MathOperator::Divide)))
    } else if columns.contains_key(tok) {
        Ok(ClauseElement::ColumnIdentifier(tok.to_owned()))
    } else {
        match parse_f64_bits(tok) {
            Some(bits) => Ok(ClauseElement::Constant(Value::Float(bits))),
            None => {
                if is_true_token(tok) {
                    Ok(ClauseElement::Constant(Value::Bool(true)))
                } else if is_false_token(tok) {
                    Ok(ClauseElement::Constant(Value::Bool(false)))
                } else {
                    let n = tok.unicode_len();
                    if n >= 2 && tok.get_char(0) == '"' && tok.get_char(n - 1) == '"' {
                        let inner = tok.substring_char(1, n - 1);
                        Ok(ClauseElement::Constant(Value::String(inner.to_owned())))
                    } else {
                        Err(MyDatabaseError::InvalidWhereClauseFormat(
                            String::from_str("Unknown token in WHERE clause: ").concat(tok),
                        ))
                    }
                }
            },
        }
    }
}

impl WhereClause {
    /// Parse a clause against the owning table's schema into its validated
    /// postfix form: tokenize at operator boundaries (longest operators
    /// first), classify each token, and run shunting-yard with the fixed
    /// precedence table; bracket mismatches fail with `opening bracket
    /// missing` or `closing bracket missing`.
    pub fn create_from_string(clause: &str, columns: &StrKeyMap<ValueType>) -> (r: Result<
        WhereClause,
        MyDatabaseError,
    >)
        ensures
            match r {
                Ok(w) => where_clause_model(clause@, columns@) == Ok::<Seq<ClauseModel>, ErrModel>(
                    w@,
                ),
                Err(e) => where_clause_model(clause@, columns@) == Err::<
                    Seq<ClauseModel>,
                    ErrModel,
                >(e@),
            },
    {
        let ops: Vec<&str> = vec![
            ">=",
            "<=",
            "!=",
            "AND",
            "OR",
            "=",
            ">",
            "<",
            "+",
            "-",
            "*",
            "/",
            "(",
            ")",
        ];
        proof {
            reveal_strlit(">=");
            reveal_strlit("<=");
            reveal_strlit("!=");
            reveal_strlit("AND");
            reveal_strlit("OR");
            reveal_strlit("=");
            reveal_strlit(">");
            reveal_strlit("<");
            reveal_strlit("+");
            reveal_strlit("-");
            reveal_strlit("*");
            reveal_strlit("/");
            reveal_strlit("(");
            reveal_strlit(")");
            assert(str_views(ops@) =~= where_ops_model());
            assert(forall|k: int|
                0 <= k < ops@.len() ==> (#[trigger] ops@[k])@.len() > 0) by {
                assert(ops@[0]@.len() > 0);
                assert(ops@[1]@.len() > 0);
                assert(ops@[2]@.len() > 0);
                assert(ops@[3]@.len() > 0);
                assert(ops@[4]@.len() > 0);
                assert(ops@[5]@.len() > 0);
                assert(ops@[6]@.len() > 0);
                assert(ops@[7]@.len() > 0);
                assert(ops@[8]@.len() > 0);
                assert(ops@[9]@.len() > 0);
                assert(ops@[10]@.len() > 0);
                assert(ops@[11]@.len() > 0);
                assert(ops@[12]@.len() > 0);
                assert(ops@[13]@.len() > 0);
            }
        }
        let coarse = split_by_operators_preserving_quotes(clause, ops.as_slice());
        let mut joined = String::new();
        let mut i: usize = 0;
        proof {
            assert(str_views(coarse@).take(0) =~= Seq::<Seq<char>>::empty());
        }
        while i < coarse.len()
            invariant
                0 <= i <= coarse@.len(),
                joined@ == join_spaced(str_views(coarse@).take(i as int)),
            decreases coarse@.len() - i,
        {
            joined.append(coarse[i]);
            joined.push(' ');
            i += 1;
            proof {
                assert(str_views(coarse@).take(i as int).drop_last() =~= str_views(coarse@).take(
                    i - 1,
                ));
                assert(str_views(coarse@).take(i as int).last() == coarse@[i - 1]@);
            }
        }
        proof {
            assert(str_views(coarse@).take(coarse@.len() as int) =~= str_views(coarse@));
        }
        let tokens = split_preserving_quote_insides(joined.as_str(), ' ');
        let ghost toks = where_tokens_model(clause@);
        proof {
            assert(str_views(tokens@) == toks);
        }
        let mut elements: Vec<ClauseElement> = Vec::new();
        let mut j: usize = 0;
        proof {
            assert(elements@.map_values(|e: ClauseElement| e@) =~= Seq::<ClauseModel>::empty());
        }
        while j < tokens.len()
            invariant
                0 <= j <= tokens@.len(),
                toks == str_views(tokens@),
                toks == where_tokens_model(clause@),
                elements@.len() == j,
                classify_from_model(toks, 0, columns@) matches Ok(all) ==> (classify_from_model(
                    toks,
                    j as int,
                    columns@,
                ) matches Ok(rest) && all == elements@.map_values(|e: ClauseElement| e@) + rest),
                classify_from_model(toks, j as int, columns@) is Err
                    ==> classify_from_model(toks, 0, columns@) == classify_from_model(
                    toks,
                    j as int,
                    columns@,
                ),
                (classify_from_model(toks, 0, columns@) is Ok) == (classify_from_model(
                    toks,
                    j as int,
                    columns@,
                ) is Ok),
            decreases tokens@.len() - j,
        {
            let ghost before = elements@.map_values(|e: ClauseElement| e@);
            match classify(tokens[j], columns) {
                Ok(c) => {
                    elements.push(c);
                },
                Err(e) => {
                    proof {
                        lemma_classify_prefix_err(toks, j as int, columns@);
                    }
                    return Err(e);
                },
            }
            j += 1;
            proof {
                assert(elements@.map_values(|e: ClauseElement| e@) =~= before.push(
                    elements@[j - 1]@,
                ));
                lemma_classify_prefix_step(toks, j - 1, columns@);
                if classify_from_model(toks, 0, columns@) is Ok {
                    let all = classify_from_model(toks, 0, columns@)->Ok_0;
                    let rest1 = classify_from_model(toks, j - 1, columns@)->Ok_0;
                    let rest2 = classify_from_model(toks, j as int, columns@)->Ok_0;
                    assert(all == before + rest1);
                    assert(rest1 == seq![before.push(elements@[j - 1]@).last()] + rest2);
                    assert(before + rest1 =~= before.push(elements@[j - 1]@) + rest2);
                }
            }
        }
        proof {
            assert(classify_from_model(toks, tokens@.len() as int, columns@) == Ok::<
                Seq<ClauseModel>,
                ErrModel,
            >(Seq::empty()));
            let all = classify_from_model(toks, 0, columns@)->Ok_0;
            assert(all =~= elements@.map_values(|e: ClauseElement| e@));
            assert(classify_from_model(toks, 0, columns@) == Ok::<Seq<ClauseModel>, ErrModel>(
                elements@.map_values(|e: ClauseElement| e@),
            ));
        }
        // shunting-yard over the classified elements
        let ghost elems = elements@.map_values(|e: ClauseElement| e@);
        let n = elements.len();
        let mut help_stack: Vec<ClauseElement> = Vec::new();
        let mut onp_elements: Vec<ClauseElement> = Vec::new();
        let mut k: usize = 0;
        proof {
            assert(help_stack@.map_values(|e: ClauseElement| e@) =~= Seq::<ClauseModel>::empty());
            assert(onp_elements@.map_values(|e: ClauseElement| e@) =~= Seq::<ClauseModel>::empty());
        }
        while k < n
            invariant
                0 <= k <= n,
                n == elements@.len(),
                elems == elements@.map_values(|e: ClauseElement| e@),
                where_clause_model(clause@, columns@) == shunt_model(
                    elems,
                    0,
                    Seq::empty(),
                    Seq::empty(),
                ),
                shunt_model(elems, 0, Seq::empty(), Seq::empty()) == shunt_model(
                    elems,
                    k as int,
                    help_stack@.map_values(|e: ClauseElement| e@),
                    onp_elements@.map_values(|e: ClauseElement| e@),
                ),
            decreases n - k,
        {
            let ghost stack0 = help_stack@.map_values(|e: ClauseElement| e@);
            let ghost out0 = onp_elements@.map_values(|e: ClauseElement| e@);
            let element = &elements[k];
            proof {
                assert(element@ == elems[k as int]);
            }
            match element {
                ClauseElement::ColumnIdentifier(_) | ClauseElement::Constant(_) => {
                    onp_elements.push(element.dup());
                    proof {
                        assert(onp_elements@.map_values(|e: ClauseElement| e@) =~= out0.push(
                            elems[k as int],
                        ));
                    }
                },
                ClauseElement::ClosingBracket => {
                    let mut opening_bracket_found = false;
                    while help_stack.len() > 0 && !opening_bracket_found
                        invariant
                            pop_until_open(stack0, out0) == (if opening_bracket_found {
                                Some(
                                    (
                                        help_stack@.map_values(|e: ClauseElement| e@),
                                        onp_elements@.map_values(|e: ClauseElement| e@),
                                    ),
                                )
                            } else {
                                pop_until_open(
                                    help_stack@.map_values(|e: ClauseElement| e@),
                                    onp_elements@.map_values(|e: ClauseElement| e@),
                                )
                            }),
                        decreases help_stack@.len() + (if opening_bracket_found {
                            0int
                        } else {
                            1int
                        }),
                    {
                        let ghost st = help_stack@.map_values(|e: ClauseElement| e@);
                        let ghost ot = onp_elements@.map_values(|e: ClauseElement| e@);
                        let operator = help_stack.pop().unwrap();
                        proof {
                            assert(st.last() == operator@);
                            assert(help_stack@.map_values(|e: ClauseElement| e@) =~= st.drop_last(
                            ));
                        }
                        match operator {
                            ClauseElement::OpeningBracket => {
                                opening_bracket_found = true;
                            },
                            _ => {
                                onp_elements.push(operator);
                                proof {
                                    assert(onp_elements@.map_values(|e: ClauseElement| e@)
                                        =~= ot.push(st.last()));
                                }
                            },
                        }
                    }
                    if !opening_bracket_found {
                        proof {
                            assert(help_stack@.map_values(|e: ClauseElement| e@).len() == 0);
                        }
                        return Err(MyDatabaseError::InvalidWhereClauseFormat(
                            String::from_str("Opening bracket missing"),
                        ));
                    }
                },
                ClauseElement::OpeningBracket => {
                    help_stack.push(ClauseElement::OpeningBracket);
                    proof {
                        assert(help_stack@.map_values(|e: ClauseElement| e@) =~= stack0.push(
                            elems[k as int],
                        ));
                    }
                },
                _ => {
                    let importance = element.get_importance();
                    loop
                        invariant_except_break
                            pop_ge(stack0, out0, importance as int) == pop_ge(
                                help_stack@.map_values(|e: ClauseElement| e@),
                                onp_elements@.map_values(|e: ClauseElement| e@),
                                importance as int,
                            ),
                        ensures
                            pop_ge(stack0, out0, importance as int) == (
                                help_stack@.map_values(|e: ClauseElement| e@),
                                onp_elements@.map_values(|e: ClauseElement| e@),
                            ),
                        decreases help_stack@.len(),
                    {
                        let ghost st = help_stack@.map_values(|e: ClauseElement| e@);
                        let ghost ot = onp_elements@.map_values(|e: ClauseElement| e@);
                        if help_stack.len() == 0 {
                            break ;
                        }
                        let top_imp = help_stack[help_stack.len() - 1].get_importance();
                        proof {
                            assert(st.last() == help_stack@[help_stack@.len() - 1]@);
                        }
                        if top_imp >= importance {
                            let popped = help_stack.pop().unwrap();
                            onp_elements.push(popped);
                            proof {
                                assert(help_stack@.map_values(|e: ClauseElement| e@) =~= st.drop_last());
                                assert(onp_elements@.map_values(|e: ClauseElement| e@) =~= ot.push(
                                    st.last(),
                                ));
                            }
                        } else {
                            break ;
                        }
                    }
                    help_stack.push(element.dup());
                    proof {
                        let p = pop_ge(stack0, out0, importance as int);
                        assert(help_stack@.map_values(|e: ClauseElement| e@) =~= p.0.push(
                            elems[k as int],
                        ));
                    }
                },
            }
            k += 1;
        }
        // drain what is left on the operator stack
        proof {
            assert(elems.len() == n);
            assert(where_clause_model(clause@, columns@) == drain_stack(
                help_stack@.map_values(|e: ClauseElement| e@),
                onp_elements@.map_values(|e: ClauseElement| e@),
            ));
        }
        loop
            invariant_except_break
                where_clause_model(clause@, columns@) == drain_stack(
                    help_stack@.map_values(|e: ClauseElement| e@),
                    onp_elements@.map_values(|e: ClauseElement| e@),
                ),
            ensures
                where_clause_model(clause@, columns@) == Ok::<Seq<ClauseModel>, ErrModel>(
                    onp_elements@.map_values(|e: ClauseElement| e@),
                ),
            decreases help_stack@.len(),
        {
            let ghost st = help_stack@.map_values(|e: ClauseElement| e@);
            let ghost ot = onp_elements@.map_values(|e: ClauseElement| e@);
            match help_stack.pop() {
                None => {
                    proof {
                        assert(st.len() == 0);
                    }
                    break ;
                },
                Some(operator) => {
                    proof {
                        assert(st.last() == operator@);
                        assert(help_stack@.map_values(|e: ClauseElement| e@) =~= st.drop_last());
                    }
                    match operator {
                        ClauseElement::OpeningBracket => {
                            return Err(MyDatabaseError::InvalidWhereClauseFormat(
                                String::from_str("Closing bracket missing"),
                            ));
                        },
                        _ => {
                            onp_elements.push(operator);
                            proof {
                                assert(onp_elements@.map_values(|e: ClauseElement| e@) =~= ot.push(
                                    st.last(),
                                ));
                            }
                        },
                    }
                },
            }
        }
        Ok(WhereClause { onp_elements })
    }
}

proof fn lemma_classify_prefix_step(
    toks: Seq<Seq<char>>,
    j: int,
    schema: Seq<(Seq<char>, ValueType)>,
)
    requires
        0 <= j < toks.len(),
        classify_model(toks[j], schema) is Ok,
    ensures
        classify_from_model(toks, j, schema) matches Ok(rest1) ==> (classify_from_model(
            toks,
            j + 1,
            schema,
        ) matches Ok(rest2) && rest1 == seq![classify_model(toks[j], schema)->Ok_0] + rest2),
        classify_from_model(toks, j + 1, schema) is Err ==> classify_from_model(toks, j, schema)
            == classify_from_model(toks, j + 1, schema),
{
}

proof fn lemma_classify_prefix_err(
    toks: Seq<Seq<char>>,
    j: int,
    schema: Seq<(Seq<char>, ValueType)>,
)
    requires
        0 <= j < toks.len(),
        classify_model(toks[j], schema) is Err,
    ensures
        classify_from_model(toks, j, schema) == Err::<Seq<ClauseModel>, ErrModel>(
            classify_model(toks[j], schema)->Err_0,
        ),
{
}

/// What one operand stands for against a record: a constant is itself, a
/// column is looked up in the record, anything else is an internal
/// inconsistency.
pub open spec fn resolve_operand_model(
    e: ClauseModel,
    rec: Seq<(Seq<char>, ValueModel)>,
) -> Result<ValueModel, ErrModel> {
    match e {
        ClauseModel::ColumnIdentifier(name) => match assoc_lookup(rec, name) {
            Some(v) => Ok(v),
            None => Err(
                ErrModel::WronglyParsedClause("Column "@ + name + " not found in record"@),
            ),
        },
        ClauseModel::Constant(c) => Ok(c),
        _ => Err(ErrModel::WronglyParsedClause("Expected column identifier or constant"@)),
    }
}

/// Stack-machine evaluation of a postfix sequence against one record, from
/// element `i` on: operands push, an operator pops its right then left
/// operand, resolves both and pushes the one result; at the end exactly one
/// boolean constant must remain.
pub open spec fn eval_from_model(
    elems: Seq<ClauseModel>,
    i: int,
    stack: Seq<ClauseModel>,
    rec: Seq<(Seq<char>, ValueModel)>,
) -> Result<bool, ErrModel>
    decreases elems.len() - i,
{
    if i < 0 || i >= elems.len() {
        if stack.len() != 1 {
            Err(ErrModel::WronglyParsedClause("More than one element left on stack after evaluation"@))
        } else {
            match stack[0] {
                ClauseModel::Constant(ValueModel::Bool(b)) => Ok(b),
                _ => Err(ErrModel::WronglyParsedClause("Final element is not a boolean constant"@)),
            }
        }
    } else {
        match elems[i] {
            ClauseModel::OpeningBracket | ClauseModel::ClosingBracket => Err(
                ErrModel::WronglyParsedClause("Brackets shouldn't be in ONP"@),
            ),
            ClauseModel::ColumnIdentifier(_) | ClauseModel::Constant(_) => eval_from_model(
                elems,
                i + 1,
                stack.push(elems[i]),
                rec,
            ),
            ClauseModel::Operator(op) => {
                if stack.len() < 2 {
                    Err(
                        ErrModel::WronglyParsedClause(
                            "Not enough elements on stack for operation"@,
                        ),
                    )
                } else {
                    let right = stack.last();
                    let left = stack[stack.len() - 2];
                    match resolve_operand_model(left, rec) {
                        Err(e) => Err(e),
                        Ok(lv) => match resolve_operand_model(right, rec) {
                            Err(e) => Err(e),
                            Ok(rv) => match any_eval_model(op, lv, rv) {
                                Err(e) => Err(e),
                                Ok(res) => eval_from_model(
                                    elems,
                                    i + 1,
                                    stack.drop_last().drop_last().push(ClauseModel::Constant(res)),
                                    rec,
                                ),
                            },
                        },
                    }
                }
            },
        }
    }
}

/// The verdict of a postfix clause on one record.
pub open spec fn evaluate_model(elems: Seq<ClauseModel>, rec: Seq<(Seq<char>, ValueModel)>) -> Result<
    bool,
    ErrModel,
> {
    eval_from_model(elems, 0, Seq::empty(), rec)
}

fn resolve_operand(e: &ClauseElement, record: &Record) -> (r: Result<Value, MyDatabaseError>)
    ensures
        match r {
            Ok(v) => resolve_operand_model(e@, record@) == Ok::<ValueModel, ErrModel>(v@),
            Err(err) => resolve_operand_model(e@, record@) == Err::<ValueModel, ErrModel>(err@),
        },
{
    match e {
        ClauseElement::ColumnIdentifier(col_name) => {
            match record.get_value_for_column(col_name.as_str()) {
                Some(v) => Ok(v.dup()),
                None => Err(
                    MyDatabaseError::WronglyParsedClause(
                        String::from_str("Column ").concat(col_name.as_str()).concat(
                            " not found in record",
                        ),
                    ),
                ),
            }
        },
        ClauseElement::Constant(c) => Ok(c.dup()),
        _ => Err(
            MyDatabaseError::WronglyParsedClause(
                String::from_str("Expected column identifier or constant"),
            ),
        ),
    }
}

impl WhereClause {
    /// Evaluate the postfix clause against one record; a well-formed clause
    /// leaves exactly one boolean on the stack, and every other end state is
    /// an internal-consistency failure.
    pub fn evaluate_for_record(&self, record: &Record) -> (r: Result<bool, MyDatabaseError>)
        ensures
            match r {
                Ok(b) => evaluate_model(self@, record@) == Ok::<bool, ErrModel>(b),
                Err(e) => evaluate_model(self@, record@) == Err::<bool, ErrModel>(e@),
            },
    {
        let ghost elems = self@;
        let n = self.onp_elements.len();
        let mut eval_stack: Vec<ClauseElement> = Vec::new();
        let mut i: usize = 0;
        proof {
            assert(eval_stack@.map_values(|e: ClauseElement| e@) =~= Seq::<ClauseModel>::empty());
        }
        while i < n
            invariant
                0 <= i <= n,
                n == self.onp_elements@.len(),
                elems == self@,
                elems.len() == n,
                evaluate_model(elems, record@) == eval_from_model(
                    elems,
                    i as int,
                    eval_stack@.map_values(|e: ClauseElement| e@),
                    record@,
                ),
            decreases n - i,
        {
            let ghost st = eval_stack@.map_values(|e: ClauseElement| e@);
            let element = &self.onp_elements[i];
            proof {
                assert(element@ == elems[i as int]);
            }
            match element {
                ClauseElement::ClosingBracket | ClauseElement::OpeningBracket => {
                    return Err(MyDatabaseError::WronglyParsedClause(
                        String::from_str("Brackets shouldn't be in ONP"),
                    ));
                },
                ClauseElement::ColumnIdentifier(_) | ClauseElement::Constant(_) => {
                    eval_stack.push(element.dup());
                    proof {
                        assert(eval_stack@.map_values(|e: ClauseElement| e@) =~= st.push(
                            elems[i as int],
                        ));
                    }
                },
                ClauseElement::Operator(op) => {
                    if eval_stack.len() < 2 {
                        return Err(MyDatabaseError::WronglyParsedClause(
                            String::from_str("Not enough elements on stack for operation"),
                        ));
                    }
                    let right = eval_stack.pop().unwrap();
                    let left = eval_stack.pop().unwrap();
                    proof {
                        assert(st.last() == right@);
                        assert(st[st.len() - 2] == left@);
                        assert(eval_stack@.map_values(|e: ClauseElement| e@) =~= st.drop_last().drop_last());
                    }
                    let left_value = match resolve_operand(&left, record) {
                        Ok(v) => v,
                        Err(e) => {
                            return Err(e);
                        },
                    };
                    let right_value = match resolve_operand(&right, record) {
                        Ok(v) => v,
                        Err(e) => {
                            return Err(e);
                        },
                    };
                    let result = match op.evaluate(&left_value, &right_value) {
                        Ok(v) => v,
                        Err(e) => {
                            return Err(e);
                        },
                    };
                    eval_stack.push(ClauseElement::Constant(result));
                    proof {
                        assert(eval_stack@.map_values(|e: ClauseElement| e@)
                            =~= st.drop_last().drop_last().push(
                            ClauseModel::Constant(result@),
                        ));
                    }
                },
            }
            i += 1;
        }
        let ghost st = eval_stack@.map_values(|e: ClauseElement| e@);
        if eval_stack.len() != 1 {
            return Err(MyDatabaseError::WronglyParsedClause(
                String::from_str("More than one element left on stack after evaluation"),
            ));
        }
        let final_element = eval_stack.pop().unwrap();
        proof {
            assert(st[0] == final_element@);
        }
        match final_element {
            ClauseElement::Constant(Value::Bool(b)) => Ok(b),
            _ => Err(MyDatabaseError::WronglyParsedClause(
                String::from_str("Final element is not a boolean constant"),
            )),
        }
    }
}

} // verus!
