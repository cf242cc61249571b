//! What an environment is to do with an expression: the decisions of
//! evaluation, apart from the machinery that carries them out.

use vstd::prelude::*;
use crate::parser::{copy_range, view_expressions, Expression, SpecExpression};

verus! {

/// What is to be done with an expression.
#[derive(Debug, PartialEq, Eq)]
pub enum Action {
    /// Take the value that is bound to a name.
    Lookup(String),
    /// Make the constant of a text.
    Text(String),
    /// Declare a function with its parameters.
    Declare { name: String, params: Vec<Expression> },
    /// Declare a function, then evaluate the expressions of its body in
    /// turn and let it return the value of the last.
    Define { name: String, params: Vec<Expression>, body: Vec<Expression> },
    /// Call a function on arguments.
    Call { name: String, arguments: Vec<Expression> },
}

/// Why nothing can be done with an expression.
#[derive(Debug, PartialEq, Eq)]
pub enum Refusal {
    /// A symbol had to stand where this expression stands.
    ExpectedSymbol(Expression),
    /// A parameter list had to stand where this expression stands.
    ExpectedParams(Expression),
    /// `extern` takes a name and a parameter list, no more and no less.
    ExternArity,
    /// `fn` takes a name and a parameter list at least.
    FnArity,
    /// A parameter list stands where no function is declared.
    Params,
}

/// What an `Action` stands for in contracts.
pub enum SpecAction {
    Lookup(Seq<char>),
    Text(Seq<char>),
    Declare { name: Seq<char>, params: Seq<SpecExpression> },
    Define { name: Seq<char>, params: Seq<SpecExpression>, body: Seq<SpecExpression> },
    Call { name: Seq<char>, arguments: Seq<SpecExpression> },
}

/// What a `Refusal` stands for in contracts.
pub enum SpecRefusal {
    ExpectedSymbol(SpecExpression),
    ExpectedParams(SpecExpression),
    ExternArity,
    FnArity,
    Params,
}

impl View for Action {
    type V = SpecAction;

    open spec fn view(&self) -> SpecAction {
        match self {
            Action::Lookup(name) => SpecAction::Lookup(name@),
            Action::Text(text) => SpecAction::Text(text@),
            Action::Declare { name, params } => SpecAction::Declare {
                name: name@,
                params: view_expressions(params@),
            },
            Action::Define { name, params, body } => SpecAction::Define {
                name: name@,
                params: view_expressions(params@),
                body: view_expressions(body@),
            },
            Action::Call { name, arguments } => SpecAction::Call {
                name: name@,
                arguments: view_expressions(arguments@),
            },
        }
    }
}

impl View for Refusal {
    type V = SpecRefusal;

    open spec fn view(&self) -> SpecRefusal {
        match self {
            Refusal::ExpectedSymbol(e) => SpecRefusal::ExpectedSymbol(e@),
            Refusal::ExpectedParams(e) => SpecRefusal::ExpectedParams(e@),
            Refusal::ExternArity => SpecRefusal::ExternArity,
            Refusal::FnArity => SpecRefusal::FnArity,
            Refusal::Params => SpecRefusal::Params,
        }
    }
}

/// The call that turns the text of a number into its value.
pub open spec fn conversion_of(text: Seq<char>) -> SpecAction {
    SpecAction::Call { name: "atof"@, arguments: seq![SpecExpression::String(text)] }
}

/// The name and the parameters that a declaration gives: its two operands
/// must be a symbol and a parameter list.
pub open spec fn declaration_of(operands: Seq<SpecExpression>) -> Result<
    (Seq<char>, Seq<SpecExpression>),
    SpecRefusal,
> {
    if operands.len() != 2 {
        Err(SpecRefusal::ExternArity)
    } else {
        match operands[0] {
            SpecExpression::Symbol(name) => match operands[1] {
                SpecExpression::ParameterList(params) => Ok((name, params)),
                other => Err(SpecRefusal::ExpectedParams(other)),
            },
            other => Err(SpecRefusal::ExpectedSymbol(other)),
        }
    }
}

/// What is to be done with an invocation that is not empty: `extern`
/// declares a function, `fn` defines one, any other symbol is called on the
/// operands.
pub open spec fn invocation_of(es: Seq<SpecExpression>) -> Result<SpecAction, SpecRefusal> {
    match es[0] {
        SpecExpression::Symbol(name) => if name == "extern"@ {
            match declaration_of(es.skip(1)) {
                Ok((name, params)) => Ok(SpecAction::Declare { name, params }),
                Err(r) => Err(r),
            }
        } else if name == "fn"@ {
            if es.len() < 3 {
                Err(SpecRefusal::FnArity)
            } else {
                match declaration_of(es.subrange(1, 3)) {
                    Ok((name, params)) => Ok(SpecAction::Define { name, params, body: es.skip(3) }),
                    Err(r) => Err(r),
                }
            }
        } else {
            Ok(SpecAction::Call { name, arguments: es.skip(1) })
        },
        other => Err(SpecRefusal::ExpectedSymbol(other)),
    }
}

/// What is to be done with an expression. A number is converted from its
/// text; the empty invocation stands for the number 0.
pub open spec fn action_of(e: SpecExpression) -> Result<SpecAction, SpecRefusal> {
    match e {
        SpecExpression::Symbol(name) => Ok(SpecAction::Lookup(name)),
        SpecExpression::Number(text) => Ok(conversion_of(text)),
        SpecExpression::String(text) => Ok(SpecAction::Text(text)),
        SpecExpression::ParameterList(_) => Err(SpecRefusal::Params),
        SpecExpression::SExpression(es) => if es.len() == 0 {
            Ok(conversion_of("0"@))
        } else {
            invocation_of(es)
        },
    }
}

/// The call that turns the text of a number into its value.
fn conversion(text: String) -> (a: Action)
    ensures
        a@ == conversion_of(text@),
{
    let mut arguments: Vec<Expression> = Vec::new();
    arguments.push(Expression::String(text));
    assert(view_expressions(arguments@) =~= seq![SpecExpression::String(text@)]);
    Action::Call { name: String::from_str("atof"), arguments }
}

/// The name and the parameters that the declaration with the operands
/// `v[from..to]` gives.
fn declaration(v: &Vec<Expression>, from: usize, to: usize) -> (r: Result<
    (String, Vec<Expression>),
    Refusal,
>)
    requires
        from <= to <= v.len(),
    ensures
        match declaration_of(view_expressions(v@).subrange(from as int, to as int)) {
            Ok((name, params)) => r matches Ok(p) && p.0@ == name && view_expressions(p.1@)
                == params,
            Err(x) => r matches Err(e) && e@ == x,
        },
{
    let ghost operands = view_expressions(v@).subrange(from as int, to as int);
    if to - from != 2 {
        return Err(Refusal::ExternArity);
    }
    assert(operands[0] == v[from as int]@);
    assert(operands[1] == v[from + 1]@);
    match &v[from] {
        Expression::Symbol(name) => match &v[from + 1] {
            Expression::ParameterList(params) => {
                let copy = copy_range(params, 0, params.len());
                assert(view_expressions(params@).subrange(0, params.len() as int)
                    =~= view_expressions(params@));
                Ok((name.clone(), copy))
            },
            other => Err(Refusal::ExpectedParams(other.clone())),
        },
        other => Err(Refusal::ExpectedSymbol(other.clone())),
    }
}

/// What is to be done with `expression`, or why nothing can be done.
pub fn action_for(expression: &Expression) -> (r: Result<Action, Refusal>)
    ensures
        match action_of(expression@) {
            Ok(x) => r matches Ok(a) && a@ == x,
            Err(x) => r matches Err(e) && e@ == x,
        },
{
    match expression {
        Expression::Symbol(name) => Ok(Action::Lookup(name.clone())),
        Expression::Number(text) => Ok(conversion(text.clone())),
        Expression::String(text) => Ok(Action::Text(text.clone())),
        Expression::ParameterList(_) => Err(Refusal::Params),
        Expression::SExpression(sexp) => {
            let ghost es = view_expressions(sexp@);
            let n = sexp.len();
            if n == 0 {
                return Ok(conversion(String::from_str("0")));
            }
            assert(es[0] == sexp[0]@);
            match &sexp[0] {
                Expression::Symbol(name) => {
                    if *name == String::from_str("extern") {
                        assert(es.skip(1) =~= es.subrange(1, n as int));
                        match declaration(sexp, 1, n) {
                            Ok((name, params)) => Ok(Action::Declare { name, params }),
                            Err(e) => Err(e),
                        }
                    } else if *name == String::from_str("fn") {
                        if n < 3 {
                            Err(Refusal::FnArity)
                        } else {
                            match declaration(sexp, 1, 3) {
                                Ok((name, params)) => {
                                    let body = copy_range(sexp, 3, n);
                                    assert(es.skip(3) =~= es.subrange(3, n as int));
                                    Ok(Action::Define { name, params, body })
                                },
                                Err(e) => Err(e),
                            }
                        }
                    } else {
                        let arguments = copy_range(sexp, 1, n);
                        assert(es.skip(1) =~= es.subrange(1, n as int));
                        Ok(Action::Call { name: name.clone(), arguments })
                    }
                },
                other => Err(Refusal::ExpectedSymbol(other.clone())),
            }
        },
    }
}

} // verus!
