use vstd::prelude::*;
use crate::ast::Ast;
use crate::environment::Environment;
use crate::error::{is_runtime_error, LangError};
use crate::lexer::{lex, lexemes, tokenize};
use crate::syntax::program;
use crate::token::Token;
use crate::parser::{is_syntax_error, parse};
use crate::types::{entry_value, get_entry, insert_entry, keys_distinct, model_entries, set_entry, RuntimeVal, Value};

verus! {

/// The number of nodes that evaluation may visit.
pub open spec fn size(a: Ast) -> nat
    decreases a,
{
    match a {
        Ast::Program { statements } => 1 + size_list(statements@),
        Ast::VariableDeclaration { value, .. } => 1 + size(*value),
        Ast::BinaryExpr { left, right, .. } => 1 + size(*left) + size(*right),
        Ast::AssignmentExpr { assignee, value } => 1 + size(*assignee) + size(*value),
        Ast::MemberExpr { object, property, .. } => 1 + size(*object) + size(*property),
        Ast::PropertyLiteral { value, .. } => 1 + match value {
            Some(v) => size(*v),
            None => 0,
        },
        Ast::ObjectLiteral { properties } => 1 + size_properties(properties@),
        _ => 1,
    }
}

pub open spec fn size_list(s: Seq<Ast>) -> nat
    decreases s,
{
    if s.len() == 0 {
        0
    } else {
        size(s[0]) + size_list(s.drop_first())
    }
}

pub open spec fn size_properties(s: Seq<(String, Option<Box<Ast>>)>) -> nat
    decreases s,
{
    if s.len() == 0 {
        0
    } else {
        1 + match s[0].1 {
            Some(v) => size(*v),
            None => 0,
        } + size_properties(s.drop_first())
    }
}

proof fn lemma_size_list(s: Seq<Ast>, i: int)
    requires
        0 <= i < s.len(),
    ensures
        size(s[i]) <= size_list(s),
    decreases s.len(),
{
    if i > 0 {
        lemma_size_list(s.drop_first(), i - 1);
    }
}

proof fn lemma_size_properties(s: Seq<(String, Option<Box<Ast>>)>, i: int)
    requires
        0 <= i < s.len(),
    ensures
        1 + match s[i].1 {
            Some(v) => size(*v),
            None => 0,
        } <= size_properties(s),
    decreases s.len(),
{
    if i > 0 {
        lemma_size_properties(s.drop_first(), i - 1);
    }
}

/// An arithmetic operator applied to two values. Operands that are not both
/// numbers give `null`; so does a character that is no operator.
pub open spec fn apply_operator(op: char, l: Value, r: Value) -> Result<Value, LangError> {
    match (l, r) {
        (Value::Number(a), Value::Number(b)) => {
            if op == '+' {
                match a.checked_add(b) {
                    Some(c) => Ok(Value::Number(c)),
                    None => Err(LangError::Overflow),
                }
            } else if op == '-' {
                match a.checked_sub(b) {
                    Some(c) => Ok(Value::Number(c)),
                    None => Err(LangError::Overflow),
                }
            } else if op == '*' {
                match a.checked_mul(b) {
                    Some(c) => Ok(Value::Number(c)),
                    None => Err(LangError::Overflow),
                }
            } else if op == '/' {
                if b == 0 {
                    Err(LangError::DivisionByZero)
                } else {
                    match a.checked_div(b) {
                        Some(c) => Ok(Value::Number(c)),
                        None => Err(LangError::Overflow),
                    }
                }
            } else if op == '%' {
                if b == 0 {
                    Err(LangError::DivisionByZero)
                } else {
                    match a.checked_rem(b) {
                        Some(c) => Ok(Value::Number(c)),
                        None => Err(LangError::Overflow),
                    }
                }
            } else {
                Ok(Value::Null)
            }
        },
        _ => Ok(Value::Null),
    }
}

/// An expression whose evaluation reads the environment and changes nothing:
/// literals, names, arithmetic, member access, calls and object literals
/// built from such expressions.
pub open spec fn is_pure(a: Ast) -> bool
    decreases a,
{
    match a {
        Ast::NumericLiteral(_) => true,
        Ast::Identifier(_) => true,
        Ast::CallExpr { .. } => true,
        Ast::BinaryExpr { left, right, .. } => is_pure(*left) && is_pure(*right),
        Ast::MemberExpr { object, property, .. } => is_pure(*object) && is_pure(*property),
        Ast::PropertyLiteral { value, .. } => match value {
            Some(v) => is_pure(*v),
            None => true,
        },
        Ast::ObjectLiteral { properties } => pure_properties(properties@),
        _ => false,
    }
}

pub open spec fn pure_properties(ps: Seq<(String, Option<Box<Ast>>)>) -> bool
    decreases ps,
{
    if ps.len() == 0 {
        true
    } else {
        let first = match ps[0].1 {
            Some(v) => is_pure(*v),
            None => true,
        };
        first && pure_properties(ps.drop_first())
    }
}

/// The object that `ps` adds to `acc`, property by property.
pub open spec fn eval_properties(env: Environment, ps: Seq<(String, Option<Box<Ast>>)>, acc: Seq<(Seq<char>, Value)>) -> Result<
    Value,
    LangError,
>
    decreases ps,
{
    if ps.len() == 0 {
        Ok(Value::Object(acc))
    } else {
        let first = match ps[0].1 {
            Some(v) => eval_pure(env, *v),
            None => match env.lookup(ps[0].0@) {
                Some(v) => Ok(v),
                None => Err(LangError::Undefined(ps[0].0)),
            },
        };
        match first {
            Err(e) => Err(e),
            Ok(v) => eval_properties(env, ps.drop_first(), insert_entry(acc, ps[0].0@, v)),
        }
    }
}

/// The value of a pure expression in `env`.
pub open spec fn eval_pure(env: Environment, a: Ast) -> Result<Value, LangError>
    decreases a,
{
    match a {
        Ast::NumericLiteral(n) => Ok(Value::Number(n)),
        Ast::Identifier(name) => match env.lookup(name@) {
            Some(v) => Ok(v),
            None => Err(LangError::Undefined(name)),
        },
        Ast::BinaryExpr { left, right, operator } => match eval_pure(env, *left) {
            Err(e) => Err(e),
            Ok(l) => match eval_pure(env, *right) {
                Err(e) => Err(e),
                Ok(r) => apply_operator(operator, l, r),
            },
        },
        Ast::MemberExpr { object, property, computed } => match eval_pure(env, *object) {
            Err(e) => Err(e),
            Ok(Value::Object(entries)) => {
                if computed {
                    match eval_pure(env, *property) {
                        Err(e) => Err(e),
                        Ok(_) => Err(LangError::NotAKey),
                    }
                } else {
                    match *property {
                        Ast::Identifier(key) => match entry_value(entries, key@) {
                            Some(v) => Ok(v),
                            None => Err(LangError::MissingKey(key)),
                        },
                        _ => Err(LangError::NotAKey),
                    }
                }
            },
            Ok(_) => Err(LangError::NotAnObject),
        },
        Ast::PropertyLiteral { key, value } => match value {
            Some(v) => eval_pure(env, *v),
            None => match env.lookup(key@) {
                Some(v) => Ok(v),
                None => Err(LangError::Undefined(key)),
            },
        },
        Ast::ObjectLiteral { properties } => eval_properties(env, properties@, Seq::empty()),
        _ => Ok(Value::Null),
    }
}

proof fn lemma_pure_properties(ps: Seq<(String, Option<Box<Ast>>)>, i: int)
    requires
        pure_properties(ps),
        0 <= i < ps.len(),
    ensures
        match ps[i].1 {
            Some(v) => is_pure(*v),
            None => true,
        },
    decreases ps.len(),
{
    if i > 0 {
        lemma_pure_properties(ps.drop_first(), i - 1);
    }
}

/// The meaning of an evaluation result.
pub open spec fn result_model(r: Result<RuntimeVal, LangError>) -> Result<Value, LangError> {
    match r {
        Ok(v) => Ok(v.model()),
        Err(e) => Err(e),
    }
}

/// Applies an arithmetic operator to two evaluated operands.
pub fn apply_binary_operator(op: char, left: RuntimeVal, right: RuntimeVal) -> (r: Result<RuntimeVal, LangError>)
    ensures
        r matches Err(e) ==> is_runtime_error(e),
        result_model(r) == apply_operator(op, left.model(), right.model()),
{
    match (left, right) {
        (RuntimeVal::Number(a), RuntimeVal::Number(b)) => {
            let c = if op == '+' {
                a.checked_add(b)
            } else if op == '-' {
                a.checked_sub(b)
            } else if op == '*' {
                a.checked_mul(b)
            } else if op == '/' {
                if b == 0 {
                    return Err(LangError::DivisionByZero);
                }
                a.checked_div(b)
            } else if op == '%' {
                if b == 0 {
                    return Err(LangError::DivisionByZero);
                }
                a.checked_rem(b)
            } else {
                return Ok(RuntimeVal::Null);
            };
            match c {
                Some(c) => Ok(RuntimeVal::Number(c)),
                None => Err(LangError::Overflow),
            }
        },
        _ => Ok(RuntimeVal::Null),
    }
}

/// What a declaration of `name` with initializer `value` does when the
/// initializer is pure.
pub open spec fn declaration_outcome(
    before: Environment,
    after: Environment,
    r: Result<RuntimeVal, LangError>,
    constant: bool,
    name: String,
    value: Ast,
) -> bool {
    match eval_pure(before, value) {
        Err(e) => r == Err::<RuntimeVal, LangError>(e) && after == before,
        Ok(v) => if before.local(name@) is Some {
            r == Err::<RuntimeVal, LangError>(LangError::AlreadyDeclared(name)) && after == before
        } else {
            result_model(r) == Ok::<Value, LangError>(v) && before.declares(&after, name@, v, constant)
        },
    }
}

/// What an assignment to `assignee` of `value` does when the value is pure.
pub open spec fn assignment_outcome(
    before: Environment,
    after: Environment,
    r: Result<RuntimeVal, LangError>,
    assignee: Ast,
    value: Ast,
) -> bool {
    match assignee {
        Ast::Identifier(name) => match eval_pure(before, value) {
            Err(e) => r == Err::<RuntimeVal, LangError>(e) && after == before,
            Ok(v) => if before.lookup(name@) is None {
                r == Err::<RuntimeVal, LangError>(LangError::Undefined(name)) && after == before
            } else if before.is_constant(name@) {
                r == Err::<RuntimeVal, LangError>(LangError::ConstantReassignment(name)) && after == before
            } else {
                result_model(r) == Ok::<Value, LangError>(v) && before.assigns(&after, name@, v)
            },
        },
        _ => r == Err::<RuntimeVal, LangError>(LangError::InvalidAssignee) && after == before,
    }
}

/// Marks the environment and result that one part of an evaluation leaves
/// for the next.
pub open spec fn stage(env: Environment, r: Result<RuntimeVal, LangError>) -> bool {
    true
}

/// Evaluating `a` from `before` ends in `after` with result `r`. Every node
/// evaluates its parts in order, passing the environment along; the first
/// error stops evaluation with the environment as that part left it.
pub open spec fn evals(before: Environment, a: Ast, after: Environment, r: Result<RuntimeVal, LangError>) -> bool
    decreases a,
{
    match a {
        Ast::Program { statements } => runs(before, statements@, Ok(RuntimeVal::Null), after, r),
        Ast::VariableDeclaration { constant, identifier, value } => exists|mid: Environment, v: Result<RuntimeVal, LangError>|
            #[trigger] stage(mid, v) && evals(before, *value, mid, v) && match v {
                Err(e) => r == Err::<RuntimeVal, LangError>(e) && after == mid,
                Ok(val) => if mid.local(identifier@) is Some {
                    r == Err::<RuntimeVal, LangError>(LangError::AlreadyDeclared(identifier)) && after == mid
                } else {
                    result_model(r) == Ok::<Value, LangError>(val.model()) && mid.declares(&after, identifier@, val.model(), constant)
                },
            },
        Ast::AssignmentExpr { assignee, value } => match *assignee {
            Ast::Identifier(name) => exists|mid: Environment, v: Result<RuntimeVal, LangError>|
                #[trigger] stage(mid, v) && evals(before, *value, mid, v) && match v {
                    Err(e) => r == Err::<RuntimeVal, LangError>(e) && after == mid,
                    Ok(val) => if mid.lookup(name@) is None {
                        r == Err::<RuntimeVal, LangError>(LangError::Undefined(name)) && after == mid
                    } else if mid.is_constant(name@) {
                        r == Err::<RuntimeVal, LangError>(LangError::ConstantReassignment(name)) && after == mid
                    } else {
                        result_model(r) == Ok::<Value, LangError>(val.model()) && mid.assigns(&after, name@, val.model())
                    },
                },
            _ => r == Err::<RuntimeVal, LangError>(LangError::InvalidAssignee) && after == before,
        },
        Ast::BinaryExpr { left, right, operator } => exists|mid: Environment, l: Result<RuntimeVal, LangError>|
            #[trigger] stage(mid, l) && evals(before, *left, mid, l) && match l {
                Err(e) => r == Err::<RuntimeVal, LangError>(e) && after == mid,
                Ok(lv) => exists|rr: Result<RuntimeVal, LangError>| #[trigger] stage(after, rr) && evals(mid, *right, after, rr) && match rr {
                    Err(e) => r == Err::<RuntimeVal, LangError>(e),
                    Ok(rv) => result_model(r) == apply_operator(operator, lv.model(), rv.model()),
                },
            },
        Ast::MemberExpr { object, property, computed } => exists|mid: Environment, o: Result<RuntimeVal, LangError>|
            #[trigger] stage(mid, o) && evals(before, *object, mid, o) && match o {
                Err(e) => r == Err::<RuntimeVal, LangError>(e) && after == mid,
                Ok(RuntimeVal::Object(entries)) => if computed {
                    exists|pr: Result<RuntimeVal, LangError>| #[trigger] stage(after, pr) && evals(mid, *property, after, pr) && match pr {
                        Err(e) => r == Err::<RuntimeVal, LangError>(e),
                        Ok(_) => r == Err::<RuntimeVal, LangError>(LangError::NotAKey),
                    }
                } else {
                    after == mid && match *property {
                        Ast::Identifier(key) => match entry_value(model_entries(entries@), key@) {
                            Some(v) => result_model(r) == Ok::<Value, LangError>(v),
                            None => r == Err::<RuntimeVal, LangError>(LangError::MissingKey(key)),
                        },
                        _ => r == Err::<RuntimeVal, LangError>(LangError::NotAKey),
                    }
                },
                Ok(_) => r == Err::<RuntimeVal, LangError>(LangError::NotAnObject) && after == mid,
            },
        Ast::PropertyLiteral { key, value } => property_evals(before, key, value, after, r),
        Ast::ObjectLiteral { properties } => builds(before, properties@, Seq::empty(), after, r),
        Ast::CallExpr { .. } => after == before && result_model(r) == Ok::<Value, LangError>(Value::Null),
        _ => after == before && result_model(r) == eval_pure(before, a),
    }
}

/// Evaluating one property: its expression, or for a bare key the value
/// bound to that name.
pub open spec fn property_evals(
    before: Environment,
    key: String,
    value: Option<Box<Ast>>,
    after: Environment,
    r: Result<RuntimeVal, LangError>,
) -> bool
    decreases value,
{
    match value {
        Some(v) => evals(before, *v, after, r),
        None => after == before && result_model(r) == eval_pure(before, Ast::Identifier(key)),
    }
}

/// Evaluating the properties `ps` in order from `before`, adding them to the
/// entries `acc`, ends in `after` with result `r`.
pub open spec fn builds(
    before: Environment,
    ps: Seq<(String, Option<Box<Ast>>)>,
    acc: Seq<(Seq<char>, Value)>,
    after: Environment,
    r: Result<RuntimeVal, LangError>,
) -> bool
    decreases ps,
{
    if ps.len() == 0 {
        after == before && result_model(r) == Ok::<Value, LangError>(Value::Object(acc))
    } else {
        exists|mid: Environment, v: Result<RuntimeVal, LangError>|
            #[trigger] stage(mid, v) && property_evals(before, ps[0].0, ps[0].1, mid, v) && match v {
                Err(e) => r == Err::<RuntimeVal, LangError>(e) && after == mid,
                Ok(val) => builds(mid, ps.drop_first(), insert_entry(acc, ps[0].0@, val.model()), after, r),
            }
    }
}

/// Running the statements `ss` in order from `before`, after a statement that
/// gave `last`, ends in `after` with result `r`: the first error stops the run,
/// and otherwise the result is that of the last statement.
pub open spec fn runs(
    before: Environment,
    ss: Seq<Ast>,
    last: Result<RuntimeVal, LangError>,
    after: Environment,
    r: Result<RuntimeVal, LangError>,
) -> bool
    decreases ss,
{
    if ss.len() == 0 {
        after == before && result_model(r) == result_model(last)
    } else {
        exists|mid: Environment, r0: Result<RuntimeVal, LangError>|
            #[trigger] stage(mid, r0) && evals(before, ss[0], mid, r0) && match r0 {
                Err(e) => r == Err::<RuntimeVal, LangError>(e) && after == mid,
                Ok(_) => runs(mid, ss.drop_first(), r0, after, r),
            }
    }
}

proof fn lemma_runs_step(
    before: Environment,
    ss: Seq<Ast>,
    last: Result<RuntimeVal, LangError>,
    mid: Environment,
    r0: Result<RuntimeVal, LangError>,
    after: Environment,
    r: Result<RuntimeVal, LangError>,
)
    requires
        ss.len() > 0,
        evals(before, ss[0], mid, r0),
        match r0 {
            Err(e) => r == Err::<RuntimeVal, LangError>(e) && after == mid,
            Ok(_) => runs(mid, ss.drop_first(), r0, after, r),
        },
    ensures
        runs(before, ss, last, after, r),
{
    assert(stage(mid, r0));
}

/// A statement whose effect is stated exactly: a pure expression, or a
/// declaration or assignment of a pure value.
pub open spec fn is_simple(s: Ast) -> bool {
    match s {
        Ast::VariableDeclaration { value, .. } => is_pure(*value),
        Ast::AssignmentExpr { value, .. } => is_pure(*value),
        _ => is_pure(s),
    }
}

/// What a simple statement does: from `before` to `after`, with result `r`.
pub open spec fn statement_outcome(before: Environment, after: Environment, r: Result<RuntimeVal, LangError>, s: Ast) -> bool {
    match s {
        Ast::VariableDeclaration { constant, identifier, value } => declaration_outcome(
            before,
            after,
            r,
            constant,
            identifier,
            *value,
        ),
        Ast::AssignmentExpr { assignee, value } => assignment_outcome(before, after, r, *assignee, *value),
        _ => after == before && result_model(r) == eval_pure(before, s),
    }
}

/// Running `ss` in order from `before`, after a statement that gave `last`,
/// ends in `after` with result `r`: the first error stops the run, and
/// otherwise the result is that of the last statement.
pub open spec fn run_outcome(
    before: Environment,
    after: Environment,
    r: Result<RuntimeVal, LangError>,
    ss: Seq<Ast>,
    last: Result<RuntimeVal, LangError>,
) -> bool
    decreases ss.len(),
{
    if ss.len() == 0 {
        after == before && result_model(r) == result_model(last)
    } else {
        exists|mid: Environment, r0: Result<RuntimeVal, LangError>|
            #[trigger] statement_outcome(before, mid, r0, ss[0]) && match r0 {
                Err(e) => r == Err::<RuntimeVal, LangError>(e) && after == mid,
                Ok(_) => run_outcome(mid, after, r, ss.drop_first(), r0),
            }
    }
}

/// What a program of simple statements does.
pub open spec fn program_outcome(before: Environment, after: Environment, r: Result<RuntimeVal, LangError>, ss: Seq<Ast>) -> bool {
    run_outcome(before, after, r, ss, Ok(RuntimeVal::Null))
}

/// Evaluates a syntax tree, consuming it.
pub fn evaluate(env: &mut Environment, ast: Ast) -> (r: Result<RuntimeVal, LangError>)
    requires
        old(env).wf(),
    ensures
        final(env).wf(),
        r matches Err(e) ==> is_runtime_error(e),
        is_pure(ast) ==> *final(env) == *old(env) && result_model(r) == eval_pure(*old(env), ast),
        ast matches Ast::VariableDeclaration { constant, identifier, value } ==> (is_pure(*value)
            ==> declaration_outcome(*old(env), *final(env), r, constant, identifier, *value)),
        ast matches Ast::AssignmentExpr { assignee, value } ==> (is_pure(*value)
            ==> assignment_outcome(*old(env), *final(env), r, *assignee, *value)),
        ast matches Ast::Program { statements } ==> ((forall|i: int| 0 <= i < statements@.len() ==> is_simple(
            #[trigger] statements@[i],
        )) ==> program_outcome(*old(env), *final(env), r, statements@)),
        evals(*old(env), ast, *final(env), r),
{
    evaluate_node(env, &ast)
}

/// Evaluates a syntax tree in place.
pub fn evaluate_node(env: &mut Environment, ast: &Ast) -> (r: Result<RuntimeVal, LangError>)
    requires
        old(env).wf(),
    ensures
        final(env).wf(),
        r matches Err(e) ==> is_runtime_error(e),
        is_pure(*ast) ==> *final(env) == *old(env) && result_model(r) == eval_pure(*old(env), *ast),
        *ast matches Ast::VariableDeclaration { constant, identifier, value } ==> (is_pure(*value)
            ==> declaration_outcome(*old(env), *final(env), r, constant, identifier, *value)),
        *ast matches Ast::AssignmentExpr { assignee, value } ==> (is_pure(*value)
            ==> assignment_outcome(*old(env), *final(env), r, *assignee, *value)),
        *ast matches Ast::Program { statements } ==> ((forall|i: int| 0 <= i < statements@.len() ==> is_simple(
            #[trigger] statements@[i],
        )) ==> program_outcome(*old(env), *final(env), r, statements@)),
        evals(*old(env), *ast, *final(env), r),
    decreases size(*ast), 1nat,
{
    match ast {
        Ast::Program { statements } => evaluate_program(env, statements),
        Ast::VariableDeclaration { constant, identifier, value } => evaluate_variable_declaration(
            env,
            *constant,
            identifier,
            value,
        ),
        Ast::AssignmentExpr { assignee, value } => evaluate_assignment_expression(env, assignee, value),
        Ast::BinaryExpr { left, right, operator } => evaluate_binary_expression(env, left, right, *operator),
        Ast::Identifier(name) => evaluate_identifier(env, name),
        Ast::NumericLiteral(n) => Ok(RuntimeVal::Number(*n)),
        Ast::PropertyLiteral { key, value } => evaluate_property_literal(env, key, value),
        Ast::ObjectLiteral { properties } => evaluate_object_literal(env, properties),
        Ast::MemberExpr { object, property, computed } => evaluate_member_expression(
            env,
            object,
            property,
            *computed,
        ),
        Ast::CallExpr { caller, args } => evaluate_call_expression(env, caller, args),
    }
}

/// Evaluates statements in order; the value of the last one, or `null` when
/// there is none.
pub fn evaluate_program(env: &mut Environment, statements: &Vec<Ast>) -> (r: Result<RuntimeVal, LangError>)
    requires
        old(env).wf(),
    ensures
        final(env).wf(),
        r matches Err(e) ==> is_runtime_error(e),
        statements@.len() == 0 ==> *final(env) == *old(env) && (r matches Ok(v) && v.model() == Value::Null),
        statements@.len() == 1 && is_pure(statements@[0]) ==> *final(env) == *old(env)
            && result_model(r) == eval_pure(*old(env), statements@[0]),
        (forall|i: int| 0 <= i < statements@.len() ==> is_simple(#[trigger] statements@[i])) ==> program_outcome(
            *old(env),
            *final(env),
            r,
            statements@,
        ),
        runs(*old(env), statements@, Ok(RuntimeVal::Null), *final(env), r),
    decreases size_list(statements@) + 1, 0nat,
{
    let mut result = RuntimeVal::Null;
    let mut i: usize = 0;
    proof {
        assert(statements@.subrange(0, statements@.len() as int) =~= statements@);
    }
    while i < statements.len()
        invariant
            env.wf(),
            0 <= i <= statements.len(),
            i == 0 ==> *env == *old(env) && result.model() == Value::Null,
            statements@.len() == 1 && is_pure(statements@[0]) && i == 1 ==> *env == *old(env)
                && Ok::<Value, LangError>(result.model()) == eval_pure(*old(env), statements@[0]),
            (forall|k: int| 0 <= k < statements@.len() ==> is_simple(#[trigger] statements@[k])) ==> forall|
                after: Environment,
                r: Result<RuntimeVal, LangError>,
            |
                #[trigger] run_outcome(*env, after, r, statements@.subrange(i as int, statements@.len() as int), Ok(result))
                    ==> program_outcome(*old(env), after, r, statements@),
            forall|after: Environment, r: Result<RuntimeVal, LangError>|
                #[trigger] runs(*env, statements@.subrange(i as int, statements@.len() as int), Ok(result), after, r)
                    ==> runs(*old(env), statements@, Ok(RuntimeVal::Null), after, r),
        decreases statements.len() - i,
    {
        proof {
            lemma_size_list(statements@, i as int);
        }
        let ghost before = *env;
        let ghost prev = Ok::<RuntimeVal, LangError>(result);
        let ghost rest = statements@.subrange(i as int, statements@.len() as int);
        let step = evaluate_node(env, &statements[i]);
        proof {
            assert(rest[0] == statements@[i as int]);
            assert(rest.drop_first() =~= statements@.subrange(i + 1, statements@.len() as int));
            if forall|k: int| 0 <= k < statements@.len() ==> is_simple(#[trigger] statements@[k]) {
                assert(is_simple(statements@[i as int]));
                assert(statement_outcome(before, *env, step, rest[0]));
                assert forall|after: Environment, r: Result<RuntimeVal, LangError>|
                    #[trigger] run_outcome(*env, after, r, rest.drop_first(), step) && step is Ok
                        implies run_outcome(before, after, r, rest, prev) by {
                    assert(statement_outcome(before, *env, step, rest[0]));
                }
                if step is Err {
                    assert(run_outcome(before, *env, step, rest, prev)) by {
                        assert(statement_outcome(before, *env, step, rest[0]));
                    }
                }
            }
            assert(evals(before, rest[0], *env, step));

            assert(stage(*env, step));
            assert forall|after: Environment, r: Result<RuntimeVal, LangError>|
                #[trigger] runs(*env, rest.drop_first(), step, after, r) && step is Ok
                    implies runs(before, rest, prev, after, r) by {
                lemma_runs_step(before, rest, prev, *env, step, after, r);
            }
            if step is Err {
                lemma_runs_step(before, rest, prev, *env, step, *env, step);
            }
        }
        match step {
            Ok(v) => {
                result = v;
            },
            Err(e) => {
                return Err(e);
            },
        }
        i = i + 1;
    }
    proof {
        let rest = statements@.subrange(i as int, statements@.len() as int);
        assert(rest =~= Seq::<Ast>::empty());
        assert(run_outcome(*env, *env, Ok(result), rest, Ok(result)));
        assert(runs(*env, rest, Ok(result), *env, Ok(result)));
    }
    Ok(result)
}

/// Evaluates the initializer and binds it in the current scope.
pub fn evaluate_variable_declaration(env: &mut Environment, constant: bool, identifier: &String, value: &Ast) -> (r:
    Result<RuntimeVal, LangError>)
    requires
        old(env).wf(),
    ensures
        final(env).wf(),
        r matches Err(e) ==> is_runtime_error(e),
        is_pure(*value) ==> declaration_outcome(*old(env), *final(env), r, constant, *identifier, *value),
        evals(
            *old(env),
            Ast::VariableDeclaration { constant, identifier: *identifier, value: Box::new(*value) },
            *final(env),
            r,
        ),
    decreases size(*value) + 1, 0nat,
{
    let ghost before = *env;
    let v = evaluate_node(env, value);
    let ghost mid = *env;
    let ghost vg = v;
    let val = match v {
        Ok(x) => x,
        Err(e) => {
            proof {
                assert(evals(before, *value, mid, vg));

                assert(stage(mid, vg));
            }
            return Err(e);
        },
    };
    let r = env.declare_variable(identifier, val, constant);
    proof {
        assert(evals(before, *value, mid, vg));

        assert(stage(mid, vg));
    }
    r
}

/// Evaluates the right-hand side and rebinds the name on the left.
pub fn evaluate_assignment_expression(env: &mut Environment, assignee: &Ast, value: &Ast) -> (r: Result<
    RuntimeVal,
    LangError,
>)
    requires
        old(env).wf(),
    ensures
        final(env).wf(),
        r matches Err(e) ==> is_runtime_error(e),
        is_pure(*value) ==> assignment_outcome(*old(env), *final(env), r, *assignee, *value),
        !(*assignee is Identifier) ==> r == Err::<RuntimeVal, LangError>(LangError::InvalidAssignee) && *final(env)
            == *old(env),
        evals(*old(env), Ast::AssignmentExpr { assignee: Box::new(*assignee), value: Box::new(*value) }, *final(env), r),
    decreases size(*assignee) + size(*value) + 1, 0nat,
{
    let name = match assignee {
        Ast::Identifier(name) => name,
        _ => {
            return Err(LangError::InvalidAssignee);
        },
    };
    let ghost before = *env;
    let v = evaluate_node(env, value);
    let ghost mid = *env;
    let ghost vg = v;
    let val = match v {
        Ok(x) => x,
        Err(e) => {
            proof {
                assert(evals(before, *value, mid, vg));

                assert(stage(mid, vg));
            }
            return Err(e);
        },
    };
    let r = env.assign_variable(name, val);
    proof {
        assert(evals(before, *value, mid, vg));

        assert(stage(mid, vg));
    }
    r
}

/// Evaluates both operands, left first, and applies the operator.
pub fn evaluate_binary_expression(env: &mut Environment, left: &Ast, right: &Ast, operator: char) -> (r: Result<
    RuntimeVal,
    LangError,
>)
    requires
        old(env).wf(),
    ensures
        final(env).wf(),
        r matches Err(e) ==> is_runtime_error(e),
        is_pure(*left) && is_pure(*right) ==> *final(env) == *old(env) && result_model(r) == eval_pure(
            *old(env),
            Ast::BinaryExpr { left: Box::new(*left), right: Box::new(*right), operator },
        ),
        evals(*old(env), Ast::BinaryExpr { left: Box::new(*left), right: Box::new(*right), operator }, *final(env), r),
    decreases size(*left) + size(*right) + 1, 0nat,
{
    let ghost before = *env;
    let l = evaluate_node(env, left);
    let ghost mid = *env;
    let ghost lg = l;
    let lv = match l {
        Ok(x) => x,
        Err(e) => {
            proof {
                assert(evals(before, *left, mid, lg));

                assert(stage(mid, lg));
            }
            return Err(e);
        },
    };
    let rr = evaluate_node(env, right);
    let ghost rg = rr;
    let rv = match rr {
        Ok(x) => x,
        Err(e) => {
            proof {
                assert(evals(before, *left, mid, lg));

                assert(stage(mid, lg));
                assert(evals(mid, *right, *env, rg));

                assert(stage(*env, rg));
            }
            return Err(e);
        },
    };
    let res = apply_binary_operator(operator, lv, rv);
    proof {
        assert(evals(before, *left, mid, lg));

        assert(stage(mid, lg));
        assert(evals(mid, *right, *env, rg));

        assert(stage(*env, rg));
    }
    res
}

/// The value bound to a name.
pub fn evaluate_identifier(env: &mut Environment, name: &String) -> (r: Result<RuntimeVal, LangError>)
    requires
        old(env).wf(),
    ensures
        *final(env) == *old(env),
        result_model(r) == eval_pure(*old(env), Ast::Identifier(*name)),
        r matches Err(e) ==> is_runtime_error(e),
        evals(*old(env), Ast::Identifier(*name), *final(env), r),
{
    match env.lookup_variable(name) {
        Some(v) => Ok(v),
        None => Err(LangError::Undefined(name.clone())),
    }
}

/// A property's value: its expression, or for a bare key the value bound to
/// that name.
pub fn evaluate_property_literal(env: &mut Environment, key: &String, value: &Option<Box<Ast>>) -> (r: Result<
    RuntimeVal,
    LangError,
>)
    requires
        old(env).wf(),
    ensures
        final(env).wf(),
        r matches Err(e) ==> is_runtime_error(e),
        *value is None ==> *final(env) == *old(env) && result_model(r) == eval_pure(*old(env), Ast::Identifier(*key)),
        *value matches Some(v) ==> (is_pure(*v) ==> *final(env) == *old(env) && result_model(r) == eval_pure(*old(env), *v)),
        is_pure(Ast::PropertyLiteral { key: *key, value: *value }) ==> *final(env) == *old(env) && result_model(r)
            == eval_pure(*old(env), Ast::PropertyLiteral { key: *key, value: *value }),
        property_evals(*old(env), *key, *value, *final(env), r),
    decreases 1 + match *value {
        Some(v) => size(*v),
        None => 0,
    }, 0nat,
{
    match value {
        None => evaluate_identifier(env, key),
        Some(exp) => evaluate_node(env, exp),
    }
}

/// Builds an object from its properties, evaluated in order. A later
/// property replaces an earlier one with the same key.
pub fn evaluate_object_literal(env: &mut Environment, properties: &Vec<(String, Option<Box<Ast>>)>) -> (r: Result<
    RuntimeVal,
    LangError,
>)
    requires
        old(env).wf(),
    ensures
        final(env).wf(),
        r matches Err(e) ==> is_runtime_error(e),
        r matches Ok(v) ==> v matches RuntimeVal::Object(entries) && keys_distinct(model_entries(entries@))
            && forall|k: Seq<char>| #[trigger] entry_value(model_entries(entries@), k) is Some <==> exists|i: int|
                0 <= i < properties@.len() && properties@[i].0@ == k,
        pure_properties(properties@) ==> *final(env) == *old(env) && result_model(r) == eval_pure(
            *old(env),
            Ast::ObjectLiteral { properties: *properties },
        ),
        builds(*old(env), properties@, Seq::empty(), *final(env), r),
    decreases 1 + size_properties(properties@), 0nat,
{
    let mut entries: Vec<(String, RuntimeVal)> = Vec::new();
    let mut i: usize = 0;
    proof {
        assert(model_entries(entries@) =~= Seq::empty());
        assert(properties@.subrange(0, properties@.len() as int) =~= properties@);
    }
    while i < properties.len()
        invariant
            env.wf(),
            0 <= i <= properties.len(),
            keys_distinct(model_entries(entries@)),
            forall|k: Seq<char>| #[trigger] entry_value(model_entries(entries@), k) is Some <==> exists|j: int|
                0 <= j < i && properties@[j].0@ == k,
            pure_properties(properties@) ==> *env == *old(env) && eval_properties(*old(env), properties@, Seq::empty())
                == eval_properties(*old(env), properties@.subrange(i as int, properties@.len() as int), model_entries(entries@)),
            forall|after: Environment, r: Result<RuntimeVal, LangError>|
                #[trigger] builds(*env, properties@.subrange(i as int, properties@.len() as int), model_entries(entries@), after, r)
                    ==> builds(*old(env), properties@, Seq::empty(), after, r),
        decreases properties.len() - i,
    {
        proof {
            lemma_size_properties(properties@, i as int);
            let rest = properties@.subrange(i as int, properties@.len() as int);
            assert(rest[0] == properties@[i as int]);
            assert(rest.drop_first() =~= properties@.subrange(i + 1, properties@.len() as int));
            if pure_properties(properties@) {
                lemma_pure_properties(properties@, i as int);
            }
        }
        let ghost env_before = *env;
        let ghost rest = properties@.subrange(i as int, properties@.len() as int);
        let ghost acc = model_entries(entries@);
        let pv = evaluate_property_literal(env, &properties[i].0, &properties[i].1);
        let ghost mid = *env;
        let ghost pg = pv;
        let v = match pv {
            Ok(x) => x,
            Err(e) => {
                proof {
                    assert(property_evals(env_before, rest[0].0, rest[0].1, mid, pg));
                    assert(stage(mid, pg));
                    assert(builds(env_before, rest, acc, mid, pg));
                }
                return Err(e);
            },
        };
        let ghost before = model_entries(entries@);
        set_entry(&mut entries, properties[i].0.clone(), v);
        proof {
            assert(property_evals(env_before, rest[0].0, rest[0].1, mid, pg));
            assert(stage(mid, pg));
            assert forall|after: Environment, r: Result<RuntimeVal, LangError>|
                #[trigger] builds(mid, rest.drop_first(), model_entries(entries@), after, r)
                    implies builds(env_before, rest, acc, after, r) by {
                assert(property_evals(env_before, rest[0].0, rest[0].1, mid, pg));
                assert(stage(mid, pg));
            }
            assert forall|k: Seq<char>| #[trigger] entry_value(model_entries(entries@), k) is Some <==> exists|j: int|
                0 <= j < i + 1 && properties@[j].0@ == k by {
                if k != properties@[i as int].0@ {
                    if exists|j: int| 0 <= j < i + 1 && properties@[j].0@ == k {
                        let j = choose|j: int| 0 <= j < i + 1 && properties@[j].0@ == k;
                        assert(j < i);
                    }
                }
            }
        }
        i = i + 1;
    }
    proof {
        assert(properties@.subrange(i as int, properties@.len() as int) =~= Seq::<(String, Option<Box<Ast>>)>::empty());
        assert(builds(
            *env,
            properties@.subrange(i as int, properties@.len() as int),
            model_entries(entries@),
            *env,
            Ok(RuntimeVal::Object(entries)),
        ));
    }
    Ok(RuntimeVal::Object(entries))
}

/// `object.key` or `object[expression]`. The object must evaluate to an
/// object holding the key.
pub fn evaluate_member_expression(env: &mut Environment, object: &Ast, property: &Ast, computed: bool) -> (r: Result<
    RuntimeVal,
    LangError,
>)
    requires
        old(env).wf(),
    ensures
        final(env).wf(),
        r matches Err(e) ==> is_runtime_error(e),
        is_pure(*object) && is_pure(*property) ==> *final(env) == *old(env) && result_model(r) == eval_pure(
            *old(env),
            Ast::MemberExpr { object: Box::new(*object), property: Box::new(*property), computed },
        ),
        evals(
            *old(env),
            Ast::MemberExpr { object: Box::new(*object), property: Box::new(*property), computed },
            *final(env),
            r,
        ),
    decreases size(*object) + size(*property) + 1, 0nat,
{
    let ghost before = *env;
    let o = evaluate_node(env, object);
    let ghost mid = *env;
    let ghost og = o;
    let obj = match o {
        Ok(x) => x,
        Err(e) => {
            proof {
                assert(evals(before, *object, mid, og));

                assert(stage(mid, og));
            }
            return Err(e);
        },
    };
    proof {
        assert(evals(before, *object, mid, og));

        assert(stage(mid, og));
    }
    match obj {
        RuntimeVal::Object(entries) => {
            if computed {
                let pr = evaluate_node(env, property);
                let ghost pg = pr;
                proof {
                    assert(evals(mid, *property, *env, pg));

                    assert(stage(*env, pg));
                }
                return match pr {
                    Ok(_) => Err(LangError::NotAKey),
                    Err(e) => Err(e),
                };
            }
            match property {
                Ast::Identifier(key) => match get_entry(&entries, key) {
                    Some(v) => Ok(v),
                    None => Err(LangError::MissingKey(key.clone())),
                },
                _ => Err(LangError::NotAKey),
            }
        },
        _ => Err(LangError::NotAnObject),
    }
}

/// Calls are parsed but not run: their value is `null`.
pub fn evaluate_call_expression(env: &mut Environment, caller: &Ast, args: &Vec<Ast>) -> (r: Result<RuntimeVal, LangError>)
    ensures
        *final(env) == *old(env),
        r matches Ok(v) && v.model() == Value::Null,
        evals(*old(env), Ast::CallExpr { caller: Box::new(*caller), args: *args }, *final(env), r),
{
    Ok(RuntimeVal::Null)
}

/// Runs a source text against `env`: tokenize, parse, evaluate.
pub fn execute(env: &mut Environment, source: String) -> (r: Result<RuntimeVal, LangError>)
    requires
        old(env).wf(),
    ensures
        final(env).wf(),
        !vstd::utf8::is_ascii_chars(source@) ==> r == Err::<RuntimeVal, LangError>(LangError::NonAscii)
            && *final(env) == *old(env),
        r matches Err(e) ==> ((is_syntax_error(e) || e is NonAscii || e is InvalidCharacter || e is NumberTooLarge)
            ==> *final(env) == *old(env)),
        lex(source@) matches Err(e) ==> r == Err::<RuntimeVal, LangError>(e) && *final(env) == *old(env),
        lex(source@) matches Ok(ls) ==> exists|ts: Seq<Token>|
            #[trigger] lexemes(ts) == ls && match program(ts) {
                Err(e) => r == Err::<RuntimeVal, LangError>(e) && *final(env) == *old(env),
                Ok(p) => exists|a: Ast| #[trigger] a.model() == p && evals(*old(env), a, *final(env), r),
            },
{
    let tokens = match tokenize(source) {
        Ok(ts) => ts,
        Err(e) => {
            return Err(e);
        },
    };
    let ghost ts = tokens@;
    let tree = match parse(tokens) {
        Ok(a) => a,
        Err(e) => {
            proof {
                assert(lexemes(ts) == lexemes(ts));
            }
            return Err(e);
        },
    };
    let ghost a = tree;
    let r = evaluate(env, tree);
    proof {
        assert(lexemes(ts) == lexemes(ts));
        assert(a.model() == a.model());
    }
    r
}

/// Evaluating a pure expression depends on nothing but the bindings that the
/// environment shows: two environments that agree on every name give the
/// same result.
pub proof fn lemma_pure_evaluation_deterministic(e1: Environment, e2: Environment, a: Ast)
    requires
        forall|n: Seq<char>| #[trigger] e1.lookup(n) == e2.lookup(n),
    ensures
        eval_pure(e1, a) == eval_pure(e2, a),
    decreases a,
{
    match a {
        Ast::BinaryExpr { left, right, .. } => {
            lemma_pure_evaluation_deterministic(e1, e2, *left);
            lemma_pure_evaluation_deterministic(e1, e2, *right);
        },
        Ast::MemberExpr { object, property, .. } => {
            lemma_pure_evaluation_deterministic(e1, e2, *object);
            lemma_pure_evaluation_deterministic(e1, e2, *property);
        },
        Ast::PropertyLiteral { value, .. } => {
            if let Some(v) = value {
                lemma_pure_evaluation_deterministic(e1, e2, *v);
            }
        },
        Ast::ObjectLiteral { properties } => {
            lemma_properties_deterministic(e1, e2, properties@, Seq::empty());
        },
        _ => {},
    }
}

proof fn lemma_properties_deterministic(
    e1: Environment,
    e2: Environment,
    ps: Seq<(String, Option<Box<Ast>>)>,
    acc: Seq<(Seq<char>, Value)>,
)
    requires
        forall|n: Seq<char>| #[trigger] e1.lookup(n) == e2.lookup(n),
    ensures
        eval_properties(e1, ps, acc) == eval_properties(e2, ps, acc),
    decreases ps,
{
    if ps.len() > 0 {
        if let Some(v) = ps[0].1 {
            lemma_pure_evaluation_deterministic(e1, e2, *v);
        }
        assert(e1.lookup(ps[0].0@) == e2.lookup(ps[0].0@));
        let first = match ps[0].1 {
            Some(v) => eval_pure(e1, *v),
            None => match e1.lookup(ps[0].0@) {
                Some(v) => Ok(v),
                None => Err(LangError::Undefined(ps[0].0)),
            },
        };
        if let Ok(v) = first {
            lemma_properties_deterministic(e1, e2, ps.drop_first(), insert_entry(acc, ps[0].0@, v));
        }
    }
}

pub open spec fn literal(n: isize) -> Box<Ast> {
    Box::new(Ast::NumericLiteral(n))
}

/// The tree of `a + b * c - d` evaluates to `(a + (b * c)) - d`, and that of
/// `a * (b + c)` to `a * (b + c)`, wherever no step leaves the integer type.
pub proof fn lemma_arithmetic_trees(env: Environment, a: isize, b: isize, c: isize, d: isize)
    ensures
        isize::MIN <= b * c <= isize::MAX && isize::MIN <= a + b * c <= isize::MAX
            && isize::MIN <= a + b * c - d <= isize::MAX ==> eval_pure(
            env,
            Ast::BinaryExpr {
                left: Box::new(Ast::BinaryExpr {
                    left: literal(a),
                    right: Box::new(Ast::BinaryExpr { left: literal(b), right: literal(c), operator: '*' }),
                    operator: '+',
                }),
                right: literal(d),
                operator: '-',
            },
        ) == Ok::<Value, LangError>(Value::Number((a + b * c - d) as isize)),
        isize::MIN <= b + c <= isize::MAX && isize::MIN <= a * (b + c) <= isize::MAX ==> eval_pure(
            env,
            Ast::BinaryExpr {
                left: literal(a),
                right: Box::new(Ast::BinaryExpr { left: literal(b), right: literal(c), operator: '+' }),
                operator: '*',
            },
        ) == Ok::<Value, LangError>(Value::Number((a * (b + c)) as isize)),
{
    assert(eval_pure(env, *literal(a)) == Ok::<Value, LangError>(Value::Number(a)));
    assert(eval_pure(env, *literal(b)) == Ok::<Value, LangError>(Value::Number(b)));
    assert(eval_pure(env, *literal(c)) == Ok::<Value, LangError>(Value::Number(c)));
    assert(eval_pure(env, *literal(d)) == Ok::<Value, LangError>(Value::Number(d)));
    let bc = Ast::BinaryExpr { left: literal(b), right: literal(c), operator: '*' };
    let s = Ast::BinaryExpr { left: literal(a), right: Box::new(bc), operator: '+' };
    assert(eval_pure(env, bc) == apply_operator('*', Value::Number(b), Value::Number(c)));
    assert(eval_pure(env, s) == match eval_pure(env, bc) {
        Ok(v) => apply_operator('+', Value::Number(a), v),
        Err(e) => Err(e),
    });
    let bp = Ast::BinaryExpr { left: literal(b), right: literal(c), operator: '+' };
    assert(eval_pure(env, bp) == apply_operator('+', Value::Number(b), Value::Number(c)));
}

} // verus!
