//! A small evaluator of arithmetic invocations.
//!
//! An invocation of `+` or `-` is a number; operands that are no numbers
//! count as zero, and the arithmetic wraps round in 64 bits. Any other
//! invocation is the number 3.

pub mod decimal;

use vstd::prelude::*;
use crate::interpreter::decimal::{decimal_text, i64_to_string, parse_decimal, parse_i64};
use crate::parser::{copy_range, view_expressions, Expression, SpecExpression};

verus! {

/// The value of a number written `t`: zero where `t` denotes no 64-bit
/// integer.
pub open spec fn number_value(t: Seq<char>) -> i64 {
    match parse_decimal(t) {
        Some(v) => v,
        None => 0i64,
    }
}

/// The name of the function that an invocation calls: its first expression
/// if that is a symbol, else `error`.
pub open spec fn head_name(es: Seq<SpecExpression>) -> Seq<char> {
    if es.len() > 0 {
        match es[0] {
            SpecExpression::Symbol(name) => name,
            _ => "error"@,
        }
    } else {
        "error"@
    }
}

/// The value of a number, again zero where there is none.
pub open spec fn value_of_number(e: SpecExpression) -> i64 {
    match e {
        SpecExpression::Number(t) => number_value(t),
        _ => 0i64,
    }
}

/// The value that an operand adds or takes away: that of a number, that of
/// an invocation that evaluates to a number, zero for anything else.
pub open spec fn value_of(e: SpecExpression) -> i64
    decreases e, 0int,
{
    match e {
        SpecExpression::Number(t) => number_value(t),
        SpecExpression::SExpression(es) => value_of_number(evaluate(es)),
        _ => 0i64,
    }
}

/// The sum of the values of `es[0]` to `es[n - 1]`.
pub open spec fn sum_to(es: Seq<SpecExpression>, n: int) -> i64
    decreases es, n,
{
    if n <= 0 || n > es.len() {
        0i64
    } else {
        sum_to(es, n - 1).wrapping_add(value_of(es[n - 1]))
    }
}

/// The sum of the values of all of `es`.
pub open spec fn sum_of(es: Seq<SpecExpression>) -> i64
    decreases es, es.len() + 1,
{
    sum_to(es, es.len() as int)
}

/// The value from which the others are taken away: `es[0]` if it is a
/// number, else zero.
pub open spec fn minuend(es: Seq<SpecExpression>) -> i64 {
    if es.len() > 0 {
        value_of_number(es[0])
    } else {
        0i64
    }
}

/// The value of `es[0]` as a number, less the values of `es[1]` to
/// `es[n - 1]`.
pub open spec fn difference_to(es: Seq<SpecExpression>, n: int) -> i64
    decreases es, n,
{
    if n <= 1 || n > es.len() {
        minuend(es)
    } else {
        difference_to(es, n - 1).wrapping_sub(value_of(es[n - 1]))
    }
}

/// The value of `es[0]` as a number, less the values of all the others.
pub open spec fn difference_of(es: Seq<SpecExpression>) -> i64
    decreases es, es.len() + 1,
{
    difference_to(es, es.len() as int)
}

/// What an invocation evaluates to: `+` and `-` are applied to the
/// operands, which are all the expressions behind the first.
pub open spec fn evaluate(es: Seq<SpecExpression>) -> SpecExpression
    decreases es, es.len() + 2,
{
    if es.len() == 0 {
        SpecExpression::Number("3"@)
    } else if head_name(es) == "+"@ {
        SpecExpression::Number(decimal_text(sum_of(es.skip(1)) as int))
    } else if head_name(es) == "-"@ {
        SpecExpression::Number(decimal_text(difference_of(es.skip(1)) as int))
    } else {
        SpecExpression::Number("3"@)
    }
}

/// Whether the expressions from `es[from]` on can be evaluated.
pub open spec fn operands_evaluable(es: Seq<SpecExpression>, from: int) -> bool
    decreases es, 0int,
{
    forall|k: int|
        from <= k < es.len() && 0 <= k ==> (#[trigger] es[k] matches SpecExpression::SExpression(
            inner,
        ) ==> evaluable(inner))
}

/// Whether an invocation can be evaluated: it is not empty, `-` has an
/// operand, and the invocations among the operands that are evaluated can
/// be evaluated themselves. The first operand of `-` is not evaluated, nor
/// are the operands of a function other than `+` and `-`.
pub open spec fn evaluable(es: Seq<SpecExpression>) -> bool
    decreases es, 1int,
{
    &&& es.len() > 0
    &&& head_name(es) == "+"@ ==> operands_evaluable(es, 1)
    &&& head_name(es) != "+"@ && head_name(es) == "-"@ ==> es.len() > 1 && operands_evaluable(
        es,
        2,
    )
}

/// Whether every top-level invocation can be evaluated.
pub open spec fn interpretable(input: Seq<SpecExpression>) -> bool {
    operands_evaluable(input, 0)
}

/// What a sequence of expressions evaluates to: the value of the last one
/// if it is an invocation, else the empty invocation.
pub open spec fn interpretation(input: Seq<SpecExpression>) -> SpecExpression {
    if input.len() == 0 {
        SpecExpression::SExpression(Seq::empty())
    } else {
        match input.last() {
            SpecExpression::SExpression(es) => evaluate(es),
            _ => SpecExpression::SExpression(Seq::empty()),
        }
    }
}

/// The functions that an invocation can call.
#[derive(Clone, Copy, Debug, PartialEq, Eq, Structural)]
pub enum Operator {
    Plus,
    Minus,
    /// Any other name.
    Other,
}

/// The function that `name` names.
pub open spec fn operator_of(name: Seq<char>) -> Operator {
    if name == "+"@ {
        Operator::Plus
    } else if name == "-"@ {
        Operator::Minus
    } else {
        Operator::Other
    }
}

/// The name `error`, which stands in for a head that is no symbol, names
/// neither `+` nor `-`.
pub proof fn lemma_error_names_no_operator()
    ensures
        operator_of("error"@) == Operator::Other,
{
    reveal_strlit("error");
    reveal_strlit("+");
    reveal_strlit("-");
    assert("error"@.len() == 5);
    assert("+"@.len() == 1);
    assert("-"@.len() == 1);
}

/// What can be evaluated among the expressions of an invocation can be
/// evaluated among its operands.
pub proof fn lemma_operands_evaluable(es: Seq<SpecExpression>, from: int)
    requires
        es.len() > 0,
        0 <= from,
        operands_evaluable(es, from + 1),
    ensures
        operands_evaluable(es.skip(1), from),
{
    let rest = es.skip(1);
    assert forall|k: int| from <= k < rest.len() && 0 <= k implies (#[trigger] rest[k]
        matches SpecExpression::SExpression(inner) ==> evaluable(inner)) by {
        assert(rest[k] == es[k + 1]);
    }
}

/// The function that `name` names.
pub fn lookup_symbol(name: &String) -> (op: Operator)
    ensures
        op == operator_of(name@),
{
    if *name == String::from_str("+") {
        Operator::Plus
    } else if *name == String::from_str("-") {
        Operator::Minus
    } else {
        Operator::Other
    }
}

/// The value of the number `e`, zero where `e` is no number.
fn number_of(e: &Expression) -> (v: i64)
    ensures
        v == value_of_number(e@),
{
    match e {
        Expression::Number(t) => match parse_i64(t) {
            Some(v) => v,
            None => 0,
        },
        _ => 0,
    }
}

/// The value that the operand `e` adds or takes away.
fn operand(e: &Expression) -> (v: i64)
    requires
        e@ matches SpecExpression::SExpression(inner) ==> evaluable(inner),
    ensures
        v == value_of(e@),
    decreases e@, 0int,
{
    match e {
        Expression::SExpression(es) => {
            let value = sexpression(es);
            number_of(&value)
        },
        other => number_of(other),
    }
}

/// The sum of the operands `expr`: a number adds its value, an invocation
/// the number that it evaluates to, anything else nothing.
pub fn fn_plus(expr: &Vec<Expression>) -> (r: Expression)
    requires
        operands_evaluable(view_expressions(expr@), 0),
    ensures
        r@ == SpecExpression::Number(decimal_text(sum_of(view_expressions(expr@)) as int)),
    decreases view_expressions(expr@), 1int,
{
    let ghost es = view_expressions(expr@);
    let mut acc: i64 = 0;
    let mut i: usize = 0;
    while i < expr.len()
        invariant
            i <= expr.len(),
            es == view_expressions(expr@),
            operands_evaluable(es, 0),
            acc == sum_to(es, i as int),
        decreases expr.len() - i,
    {
        assert(es[i as int] == expr[i as int]@);
        acc = acc.wrapping_add(operand(&expr[i]));
        i = i + 1;
    }
    Expression::Number(i64_to_string(acc))
}

/// The first of the operands `expr`, taken as a number, less each of the
/// others.
pub fn fn_min(expr: &Vec<Expression>) -> (r: Expression)
    requires
        expr.len() > 0,
        operands_evaluable(view_expressions(expr@), 1),
    ensures
        r@ == SpecExpression::Number(decimal_text(difference_of(view_expressions(expr@)) as int)),
    decreases view_expressions(expr@), 1int,
{
    let ghost es = view_expressions(expr@);
    assert(es[0] == expr[0]@);
    let mut acc: i64 = number_of(&expr[0]);
    let mut i: usize = 1;
    while i < expr.len()
        invariant
            1 <= i <= expr.len(),
            es == view_expressions(expr@),
            operands_evaluable(es, 1),
            acc == difference_to(es, i as int),
        decreases expr.len() - i,
    {
        assert(es[i as int] == expr[i as int]@);
        acc = acc.wrapping_sub(operand(&expr[i]));
        i = i + 1;
    }
    Expression::Number(i64_to_string(acc))
}

/// What the invocation `expr` evaluates to.
pub fn sexpression(expr: &Vec<Expression>) -> (r: Expression)
    requires
        evaluable(view_expressions(expr@)),
    ensures
        r@ == evaluate(view_expressions(expr@)),
    decreases view_expressions(expr@), 2int,
{
    let ghost es = view_expressions(expr@);
    assert(es[0] == expr[0]@);
    let op = match &expr[0] {
        Expression::Symbol(name) => lookup_symbol(name),
        _ => Operator::Other,
    };
    proof {
        lemma_error_names_no_operator();
    }
    match op {
        Operator::Plus => {
            let rest = copy_range(expr, 1, expr.len());
            assert(es.skip(1) =~= es.subrange(1, es.len() as int));
            proof {
                lemma_operands_evaluable(es, 0);
            }
            fn_plus(&rest)
        },
        Operator::Minus => {
            let rest = copy_range(expr, 1, expr.len());
            assert(es.skip(1) =~= es.subrange(1, es.len() as int));
            proof {
                lemma_operands_evaluable(es, 1);
            }
            fn_min(&rest)
        },
        Operator::Other => Expression::Number(String::from_str("3")),
    }
}

/// Whether every invocation among the operands of `expr` from `from` on
/// can be evaluated.
fn operands_can_be_evaluated(expr: &Vec<Expression>, from: usize) -> (r: bool)
    ensures
        r == operands_evaluable(view_expressions(expr@), from as int),
    decreases expr, 0int,
{
    let ghost es = view_expressions(expr@);
    let mut i: usize = from;
    while i < expr.len()
        invariant
            from <= i,
            es == view_expressions(expr@),
            forall|k: int|
                from <= k < i && k < es.len() ==> (#[trigger] es[k]
                    matches SpecExpression::SExpression(inner) ==> evaluable(inner)),
        decreases expr.len() - i,
    {
        assert(es[i as int] == expr[i as int]@);
        match &expr[i] {
            Expression::SExpression(inner) => {
                if !can_evaluate(inner) {
                    return false;
                }
            },
            _ => {},
        }
        i = i + 1;
    }
    true
}

/// Whether the invocation `expr` can be evaluated.
pub fn can_evaluate(expr: &Vec<Expression>) -> (r: bool)
    ensures
        r == evaluable(view_expressions(expr@)),
    decreases expr, 1int,
{
    let ghost es = view_expressions(expr@);
    if expr.len() == 0 {
        return false;
    }
    assert(es[0] == expr[0]@);
    let op = match &expr[0] {
        Expression::Symbol(name) => lookup_symbol(name),
        _ => Operator::Other,
    };
    proof {
        lemma_error_names_no_operator();
    }
    match op {
        Operator::Plus => operands_can_be_evaluated(expr, 1),
        Operator::Minus => expr.len() > 1 && operands_can_be_evaluated(expr, 2),
        Operator::Other => true,
    }
}

/// Whether `input` can be evaluated.
pub fn can_interpret(input: &Vec<Expression>) -> (r: bool)
    ensures
        r == interpretable(view_expressions(input@)),
{
    operands_can_be_evaluated(input, 0)
}

/// Evaluates the expressions of `input` in turn and gives the value of the
/// last one: an invocation evaluates to a number, anything else to the
/// empty invocation, as does an empty input.
pub fn interpret(input: Vec<Expression>) -> (r: Expression)
    requires
        interpretable(view_expressions(input@)),
    ensures
        r@ == interpretation(view_expressions(input@)),
{
    let ghost es = view_expressions(input@);
    let mut result = Expression::SExpression(Vec::new());
    assert(result@ == SpecExpression::SExpression(Seq::empty())) by {
        assert(view_expressions(Seq::<Expression>::empty()) =~= Seq::empty());
    }
    let mut i: usize = 0;
    while i < input.len()
        invariant
            i <= input.len(),
            es == view_expressions(input@),
            interpretable(es),
            result@ == interpretation(es.take(i as int)),
        decreases input.len() - i,
    {
        assert(es[i as int] == input[i as int]@);
        assert(es.take(i + 1).last() == es[i as int]);
        match &input[i] {
            Expression::SExpression(expression) => {
                result = sexpression(expression);
            },
            _ => {
                result = Expression::SExpression(Vec::new());
                assert(result@ == SpecExpression::SExpression(Seq::empty())) by {
                    assert(view_expressions(Seq::<Expression>::empty()) =~= Seq::empty());
                }
            },
        }
        i = i + 1;
    }
    assert(es.take(i as int) =~= es);
    result
}

/// Evaluates `input` where it can be evaluated: `None` where it holds an
/// empty invocation, or `-` without an operand, in a place that is
/// evaluated.
pub fn try_interpret(input: Vec<Expression>) -> (r: Option<Expression>)
    ensures
        match r {
            Some(e) => interpretable(view_expressions(input@)) && e@ == interpretation(
                view_expressions(input@),
            ),
            None => !interpretable(view_expressions(input@)),
        },
{
    if can_interpret(&input) {
        Some(interpret(input))
    } else {
        None
    }
}

} // verus!
