use vstd::prelude::*;
use vstd::string::*;
use crate::error::{invalid_transform, outcome, transform_failed, ErrorKind, ResolveError};
use crate::num::{fmt_num, mul_parts, add_parts, sub_parts, div_parts, num_op, num_text, Num};
use crate::text::{push_char, same_text};
use crate::value::{TokenValue, TransformStep, ValueModel};

verus! {

/// The operations that a pipeline step can name.
#[derive(Debug, Clone, Copy, PartialEq, Eq)]
pub enum Builtin {
    Alias,
    Multiply,
    Add,
    Subtract,
    Divide,
}

/// The operation registered under a step name.
pub open spec fn builtin_named(name: Seq<char>) -> Option<Builtin> {
    if name == "alias"@ {
        Some(Builtin::Alias)
    } else if name == "multiply"@ {
        Some(Builtin::Multiply)
    } else if name == "add"@ {
        Some(Builtin::Add)
    } else if name == "subtract"@ {
        Some(Builtin::Subtract)
    } else if name == "divide"@ {
        Some(Builtin::Divide)
    } else {
        None
    }
}

/// The table of operations that pipeline steps are looked up in: the five
/// built-in operations. Computed functions registered from outside, which a
/// JavaScript engine (boa_engine) would evaluate by name on JSON-encoded
/// input, are not provided, since that engine cannot be built alongside the
/// library; a step naming any other operation fails with `InvalidTransform`.
#[derive(Debug)]
pub struct TransformRegistry {}

impl Default for TransformRegistry {
    fn default() -> (r: Self) {
        TransformRegistry {  }
    }
}

impl TransformRegistry {
    /// The operation registered under `name`, if any.
    pub fn get_builtin(&self, name: &str) -> (r: Option<Builtin>)
        ensures
            r == builtin_named(name@),
    {
        if same_text(name, "alias") {
            Some(Builtin::Alias)
        } else if same_text(name, "multiply") {
            Some(Builtin::Multiply)
        } else if same_text(name, "add") {
            Some(Builtin::Add)
        } else if same_text(name, "subtract") {
            Some(Builtin::Subtract)
        } else if same_text(name, "divide") {
            Some(Builtin::Divide)
        } else {
            None
        }
    }
}

/// The model of a step's first argument, if it has one.
pub open spec fn first_arg(step: TransformStep) -> Option<ValueModel> {
    if step.args.len() > 0 {
        Some(step.args@[0]@)
    } else {
        None
    }
}

pub open spec fn opt_model(v: Option<TokenValue>) -> Option<ValueModel> {
    match v {
        Some(x) => Some(x@),
        None => None,
    }
}

/// The deferred CSS expression `calc(<lhs> <op> <rhs>)`.
pub open spec fn calc_text(lhs: Seq<char>, op: char, rhs: Seq<char>) -> Seq<char> {
    seq!['c', 'a', 'l', 'c', '('] + lhs + seq![' ', op, ' '] + rhs + seq![')']
}

/// The target named by the argument of an `alias` step.
pub open spec fn alias_target(arg: Option<ValueModel>) -> Option<Seq<char>> {
    match arg {
        Some(ValueModel::Str(s)) => Some(s),
        Some(ValueModel::Alias(s)) => Some(s),
        _ => None,
    }
}

/// `numeric(n)` for a number, or failure where the exact result does not fit.
pub open spec fn number_or_fail(r: Option<Num>, wrap: spec_fn(Num) -> ValueModel) -> Result<ValueModel, ErrorKind> {
    match r {
        Some(n) => Ok(wrap(n)),
        None => Err(ErrorKind::TransformFailed),
    }
}

/// What a `multiply` step yields.
pub open spec fn multiply_step(input: Option<ValueModel>, arg: Option<ValueModel>) -> Result<ValueModel, ErrorKind> {
    match arg {
        Some(ValueModel::Number(f)) => match input {
            Some(ValueModel::Number(n)) => number_or_fail(num_op(mul_parts(n, f)), |x: Num| ValueModel::Number(x)),
            Some(ValueModel::Dimension(n, u)) => number_or_fail(num_op(mul_parts(n, f)), |x: Num| ValueModel::Dimension(x, u)),
            Some(ValueModel::Str(s)) => Ok(ValueModel::Str(calc_text(s, '*', num_text(f)))),
            _ => Err(ErrorKind::TransformFailed),
        },
        _ => Err(ErrorKind::InvalidTransform),
    }
}

/// What an `add` step (or, with `subtract` set, a `subtract` step) yields.
pub open spec fn add_step(input: Option<ValueModel>, arg: Option<ValueModel>, subtract: bool) -> Result<ValueModel, ErrorKind> {
    let (amount, unit): (Option<Num>, Option<Seq<char>>) = match arg {
        Some(ValueModel::Number(n)) => (Some(n), None),
        Some(ValueModel::Dimension(n, u)) => (Some(n), Some(u)),
        _ => (None, None),
    };
    let op = if subtract { '-' } else { '+' };
    match amount {
        None => Err(ErrorKind::InvalidTransform),
        Some(a) => {
            let combined = |n: Num| if subtract { num_op(sub_parts(n, a)) } else { num_op(add_parts(n, a)) };
            match input {
                Some(ValueModel::Number(n)) => number_or_fail(combined(n), |x: Num| ValueModel::Number(x)),
                Some(ValueModel::Dimension(n, u)) => if unit is Some && unit->0 != u {
                    Err(ErrorKind::TransformFailed)
                } else {
                    number_or_fail(combined(n), |x: Num| ValueModel::Dimension(x, u))
                },
                Some(ValueModel::Str(s)) => {
                    let rhs = match unit {
                        Some(u) => num_text(a) + u,
                        None => num_text(a),
                    };
                    Ok(ValueModel::Str(calc_text(s, op, rhs)))
                },
                _ => Err(ErrorKind::TransformFailed),
            }
        },
    }
}

/// What a `divide` step yields; dividing by zero always fails.
pub open spec fn divide_step(input: Option<ValueModel>, arg: Option<ValueModel>) -> Result<ValueModel, ErrorKind> {
    match arg {
        Some(ValueModel::Number(f)) => if f.numer_spec() == 0 {
            Err(ErrorKind::TransformFailed)
        } else {
            match input {
                Some(ValueModel::Number(n)) => number_or_fail(num_op(div_parts(n, f)), |x: Num| ValueModel::Number(x)),
                Some(ValueModel::Dimension(n, u)) => number_or_fail(num_op(div_parts(n, f)), |x: Num| ValueModel::Dimension(x, u)),
                Some(ValueModel::Str(s)) => Ok(ValueModel::Str(calc_text(s, '/', num_text(f)))),
                _ => Err(ErrorKind::TransformFailed),
            }
        },
        _ => Err(ErrorKind::InvalidTransform),
    }
}

/// What a numeric step yields, by operation.
pub open spec fn numeric_step(b: Builtin, input: Option<ValueModel>, arg: Option<ValueModel>) -> Result<ValueModel, ErrorKind> {
    match b {
        Builtin::Multiply => multiply_step(input, arg),
        Builtin::Add => add_step(input, arg, false),
        Builtin::Subtract => add_step(input, arg, true),
        Builtin::Divide => divide_step(input, arg),
        Builtin::Alias => Err(ErrorKind::InvalidTransform),
    }
}

/// The string `calc(<lhs> <op> <rhs>)`.
pub fn css_calc(lhs: &str, op: char, rhs: &str) -> (r: String)
    ensures
        r@ == calc_text(lhs@, op, rhs@),
{
    let mut r = String::new();
    push_char(&mut r, 'c');
    push_char(&mut r, 'a');
    push_char(&mut r, 'l');
    push_char(&mut r, 'c');
    push_char(&mut r, '(');
    r.append(lhs);
    push_char(&mut r, ' ');
    push_char(&mut r, op);
    push_char(&mut r, ' ');
    r.append(rhs);
    push_char(&mut r, ')');
    assert(r@ =~= calc_text(lhs@, op, rhs@));
    r
}

fn number_arg(step: &TransformStep) -> (r: Option<Num>)
    ensures
        match r {
            Some(n) => first_arg(*step) == Some(ValueModel::Number(n)),
            None => !(first_arg(*step) matches Some(ValueModel::Number(_))),
        },
{
    if step.args.len() > 0 {
        match &step.args[0] {
            TokenValue::Number(n) => Some(*n),
            _ => None,
        }
    } else {
        None
    }
}

/// Applies a `multiply` step to the pipeline's current value.
pub fn builtin_multiply(input: Option<TokenValue>, step: &TransformStep) -> (r: Result<TokenValue, ResolveError>)
    ensures
        outcome(r) == multiply_step(opt_model(input), first_arg(*step)),
{
    let factor = match number_arg(step) {
        Some(f) => f,
        None => return Err(invalid_transform("multiply expects number")),
    };
    match input {
        Some(TokenValue::Number(n)) => match n.checked_mul(&factor) {
            Some(x) => Ok(TokenValue::Number(x)),
            None => Err(transform_failed("multiply overflows")),
        },
        Some(TokenValue::Dimension { value, unit }) => match value.checked_mul(&factor) {
            Some(x) => Ok(TokenValue::Dimension { value: x, unit }),
            None => Err(transform_failed("multiply overflows")),
        },
        Some(TokenValue::String(s)) => {
            let rhs = fmt_num(&factor);
            Ok(TokenValue::String(css_calc(s.as_str(), '*', rhs.as_str())))
        },
        _ => Err(transform_failed("multiply expects number/dimension/string input")),
    }
}

fn combine_num(n: &Num, a: &Num, subtract: bool) -> (r: Option<Num>)
    ensures
        r == if subtract { num_op(sub_parts(*n, *a)) } else { num_op(add_parts(*n, *a)) },
{
    if subtract {
        n.checked_sub(a)
    } else {
        n.checked_add(a)
    }
}

/// Applies an `add` step, or with `subtract` set a `subtract` step.
fn add_or_subtract(input: Option<TokenValue>, step: &TransformStep, subtract: bool) -> (r: Result<TokenValue, ResolveError>)
    ensures
        outcome(r) == add_step(opt_model(input), first_arg(*step), subtract),
{
    let op = if subtract { '-' } else { '+' };
    let (amount, unit): (Num, Option<String>) = if step.args.len() > 0 {
        match &step.args[0] {
            TokenValue::Number(n) => (*n, None),
            TokenValue::Dimension { value, unit } => (*value, Some(unit.clone())),
            _ => return Err(invalid_transform("add/subtract expects number or dimension")),
        }
    } else {
        return Err(invalid_transform("add/subtract expects number or dimension"));
    };
    match input {
        Some(TokenValue::Number(n)) => match combine_num(&n, &amount, subtract) {
            Some(x) => Ok(TokenValue::Number(x)),
            None => Err(transform_failed("add/subtract overflows")),
        },
        Some(TokenValue::Dimension { value, unit: input_unit }) => {
            match &unit {
                Some(u) => {
                    if !same_text(u.as_str(), input_unit.as_str()) {
                        return Err(transform_failed("unit mismatch"));
                    }
                },
                None => {},
            }
            match combine_num(&value, &amount, subtract) {
                Some(x) => Ok(TokenValue::Dimension { value: x, unit: input_unit }),
                None => Err(transform_failed("add/subtract overflows")),
            }
        },
        Some(TokenValue::String(s)) => {
            let mut rhs = fmt_num(&amount);
            match &unit {
                Some(u) => rhs.append(u.as_str()),
                None => {},
            }
            Ok(TokenValue::String(css_calc(s.as_str(), op, rhs.as_str())))
        },
        _ => Err(transform_failed("add/subtract expects number/dimension/string input")),
    }
}

/// Applies an `add` step to the pipeline's current value.
pub fn builtin_add(input: Option<TokenValue>, step: &TransformStep) -> (r: Result<TokenValue, ResolveError>)
    ensures
        outcome(r) == add_step(opt_model(input), first_arg(*step), false),
{
    add_or_subtract(input, step, false)
}

/// Applies a `subtract` step to the pipeline's current value.
pub fn builtin_subtract(input: Option<TokenValue>, step: &TransformStep) -> (r: Result<TokenValue, ResolveError>)
    ensures
        outcome(r) == add_step(opt_model(input), first_arg(*step), true),
{
    add_or_subtract(input, step, true)
}

/// Applies a `divide` step to the pipeline's current value.
pub fn builtin_divide(input: Option<TokenValue>, step: &TransformStep) -> (r: Result<TokenValue, ResolveError>)
    ensures
        outcome(r) == divide_step(opt_model(input), first_arg(*step)),
{
    let divisor = match number_arg(step) {
        Some(f) => f,
        None => return Err(invalid_transform("divide expects number")),
    };
    if divisor.is_zero() {
        return Err(transform_failed("divide by zero"));
    }
    match input {
        Some(TokenValue::Number(n)) => match n.checked_div(&divisor) {
            Some(x) => Ok(TokenValue::Number(x)),
            None => Err(transform_failed("divide overflows")),
        },
        Some(TokenValue::Dimension { value, unit }) => match value.checked_div(&divisor) {
            Some(x) => Ok(TokenValue::Dimension { value: x, unit }),
            None => Err(transform_failed("divide overflows")),
        },
        Some(TokenValue::String(s)) => {
            let rhs = fmt_num(&divisor);
            Ok(TokenValue::String(css_calc(s.as_str(), '/', rhs.as_str())))
        },
        _ => Err(transform_failed("divide expects number/dimension/string input")),
    }
}

/// Applies a numeric step (`multiply`, `add`, `subtract` or `divide`).
pub fn apply_numeric(b: Builtin, input: Option<TokenValue>, step: &TransformStep) -> (r: Result<TokenValue, ResolveError>)
    ensures
        outcome(r) == numeric_step(b, opt_model(input), first_arg(*step)),
{
    match b {
        Builtin::Multiply => builtin_multiply(input, step),
        Builtin::Add => builtin_add(input, step),
        Builtin::Subtract => builtin_subtract(input, step),
        Builtin::Divide => builtin_divide(input, step),
        Builtin::Alias => Err(invalid_transform("alias is not numeric")),
    }
}

} // verus!
