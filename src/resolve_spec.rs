use vstd::prelude::*;
use crate::css_var::CssKeyOptions;
use crate::error::ErrorKind;
use crate::tokenset::{has_key, keys_unique, value_at};
use crate::transform::{alias_target, builtin_named, numeric_step, Builtin};
use crate::value::{StepModel, TokenModel, ValueModel};

verus! {

/// Entries of a token set: each path with the model of its token.
pub type Entries = Seq<(Seq<char>, TokenModel)>;

/// The model of a step's first argument, if it has one.
pub open spec fn step_arg(step: StepModel) -> Option<ValueModel> {
    if step.args.len() > 0 {
        Some(step.args[0])
    } else {
        None
    }
}

/// The path that a step takes its value from, where it is an `alias` step.
pub open spec fn step_alias(step: StepModel) -> Option<Seq<char>> {
    if builtin_named(step.kind) == Some(Builtin::Alias) {
        alias_target(step_arg(step))
    } else {
        None
    }
}

/// `v` takes the resolved value of `t`: through an `Alias`, or an `alias` step.
pub open spec fn alias_mentions(v: ValueModel, t: Seq<char>) -> bool
    decreases v,
{
    match v {
        ValueModel::Alias(s) => s == t,
        ValueModel::Object(m) => exists|i: int| 0 <= i < m.len() && alias_mentions(#[trigger] m[i].1, t),
        ValueModel::Transform(steps) => exists|i: int| 0 <= i < steps.len() && step_alias(#[trigger] steps[i]) == Some(t),
        _ => false,
    }
}

/// `v` holds a `Reference` to `t`.
pub open spec fn ref_mentions(v: ValueModel, t: Seq<char>) -> bool
    decreases v,
{
    match v {
        ValueModel::Reference(s) => s == t,
        ValueModel::Object(m) => exists|i: int| 0 <= i < m.len() && ref_mentions(#[trigger] m[i].1, t),
        _ => false,
    }
}

/// `v` holds a transform pipeline.
pub open spec fn has_transform(v: ValueModel) -> bool
    decreases v,
{
    match v {
        ValueModel::Transform(_) => true,
        ValueModel::Object(m) => exists|i: int| 0 <= i < m.len() && has_transform(#[trigger] m[i].1),
        _ => false,
    }
}

/// `v` holds no alias, reference or transform: it resolves to itself.
pub open spec fn is_literal(v: ValueModel) -> bool
    decreases v,
{
    match v {
        ValueModel::Alias(_) | ValueModel::Reference(_) | ValueModel::Transform(_) => false,
        ValueModel::Object(m) => forall|i: int| 0 <= i < m.len() ==> is_literal(#[trigger] m[i].1),
        _ => true,
    }
}

/// The source value stored under `k`.
pub open spec fn source_value(s: Entries, k: Seq<char>) -> ValueModel {
    value_at(s, k).value
}

/// The token at `a` takes the resolved value of the token at `b`.
pub open spec fn alias_edge(s: Entries, a: Seq<char>, b: Seq<char>) -> bool {
    has_key(s, a) && alias_mentions(source_value(s, a), b)
}

/// A chain of alias edges that comes back to where it started.
pub open spec fn is_alias_cycle(s: Entries, q: Seq<Seq<char>>) -> bool {
    &&& q.len() >= 2
    &&& q[0] == q.last()
    &&& forall|i: int| 0 <= i < q.len() - 1 ==> alias_edge(s, #[trigger] q[i], q[i + 1])
}

/// Some token of the set names, by alias or reference, a path the set lacks.
pub open spec fn has_missing_target(s: Entries) -> bool {
    exists|k: Seq<char>, t: Seq<char>|
        has_key(s, k) && (alias_mentions(source_value(s, k), t) || ref_mentions(source_value(s, k), t))
            && !has_key(s, t)
}

/// The token `k` names, by alias or reference, the path `t` that the set lacks.
pub open spec fn missing_from(s: Entries, k: Seq<char>, t: Seq<char>) -> bool {
    has_key(s, k) && (alias_mentions(source_value(s, k), t) || ref_mentions(source_value(s, k), t)) && !has_key(s, t)
}

/// The message of a missing target: `<t> (referenced by <k>)`.
pub open spec fn not_found_text(t: Seq<char>, k: Seq<char>) -> Seq<char> {
    t + " (referenced by "@ + k + ")"@
}

/// Paths joined by ` -> `.
pub open spec fn arrow_chain(q: Seq<Seq<char>>) -> Seq<char>
    decreases q.len(),
{
    if q.len() == 0 {
        Seq::empty()
    } else if q.len() == 1 {
        q[0]
    } else {
        q[0] + " -> "@ + arrow_chain(q.subrange(1, q.len() as int))
    }
}

/// Each path of `q` takes its value from the next.
pub open spec fn is_alias_path(s: Entries, q: Seq<Seq<char>>) -> bool {
    forall|i: int| 0 <= i < q.len() - 1 ==> alias_edge(s, #[trigger] q[i], q[i + 1])
}

/// `q` walks alias edges until it reaches a path it has passed already.
pub open spec fn closes_on_itself(s: Entries, q: Seq<Seq<char>>) -> bool {
    &&& q.len() >= 2
    &&& is_alias_path(s, q)
    &&& exists|j: int| 0 <= j < q.len() - 1 && #[trigger] q[j] == q.last()
}

/// Some walk along alias edges from `k` comes back to a path passed already.
pub open spec fn reaches_cycle(s: Entries, k: Seq<char>) -> bool {
    exists|q: Seq<Seq<char>>| q.len() > 0 && q[0] == k && #[trigger] closes_on_itself(s, q)
}

/// `q` is the chain a cycle error reports: it starts at the token `i`, the
/// first in order from which a cycle can be reached, walks alias edges, and
/// stops at the first path met again.
pub open spec fn cycle_from(s: Entries, q: Seq<Seq<char>>, i: int) -> bool {
    &&& 0 <= i < s.len()
    &&& q[0] == s[i].0
    &&& closes_on_itself(s, q)
    &&& q.drop_last().no_duplicates()
    &&& forall|j: int| 0 <= j < i ==> !reaches_cycle(s, #[trigger] s[j].0)
}

/// What an error's message says: a missing target is named with the token
/// that names it; a cycle with the whole chain of paths (see `cycle_from`).
pub open spec fn message_ok(s: Entries, e: crate::error::ResolveError) -> bool {
    match e {
        crate::error::ResolveError::TokenNotFound(m) => exists|k: Seq<char>, t: Seq<char>|
            #[trigger] missing_from(s, k, t) && m@ == not_found_text(t, k),
        crate::error::ResolveError::CycleDetected(m) => exists|q: Seq<Seq<char>>, i: int|
            #[trigger] cycle_from(s, q, i) && m@ == arrow_chain(q),
        _ => true,
    }
}

pub open spec fn has_alias_cycle(s: Entries) -> bool {
    exists|q: Seq<Seq<char>>| is_alias_cycle(s, q)
}

/// `v` holds the pipeline `steps`, itself or in an object member.
pub open spec fn holds_pipeline(v: ValueModel, steps: Seq<StepModel>) -> bool
    decreases v,
{
    match v {
        ValueModel::Transform(st) => st == steps,
        ValueModel::Object(m) => exists|i: int| 0 <= i < m.len() && holds_pipeline(#[trigger] m[i].1, steps),
        _ => false,
    }
}

/// The pipeline `steps` of the token `k`, read against entries `o` resolved
/// from the set, gets through its first `i` steps and fails at step `i` with
/// `kind`.
pub open spec fn fails_at(s: Entries, opts: CssKeyOptions, kind: ErrorKind, k: Seq<char>, steps: Seq<StepModel>, i: int, o: Entries) -> bool {
    &&& has_key(s, k)
    &&& holds_pipeline(source_value(s, k), steps)
    &&& 0 <= i < steps.len()
    &&& resolved_from(s, o, opts)
    &&& eval_steps(o, steps.subrange(0, i)) is Ok
    &&& eval_step(o, steps[i], eval_steps(o, steps.subrange(0, i))->Ok_0) == Err::<ValueModel, ErrorKind>(kind)
}

/// Some pipeline step of the set fails with `kind`.
pub open spec fn has_failing_step(s: Entries, opts: CssKeyOptions, kind: ErrorKind) -> bool {
    exists|k: Seq<char>, steps: Seq<StepModel>, i: int, o: Entries| #[trigger] fails_at(s, opts, kind, k, steps, i, o)
}

pub open spec fn has_any_transform(s: Entries) -> bool {
    exists|k: Seq<char>| has_key(s, k) && has_transform(source_value(s, k))
}

pub open spec fn has_any_alias(s: Entries) -> bool {
    exists|k: Seq<char>, t: Seq<char>| has_key(s, k) && alias_mentions(source_value(s, k), t)
}

/// The resolved value of `v`, aliases read from the resolved entries `o`.
pub open spec fn eval(o: Entries, opts: CssKeyOptions, v: ValueModel) -> Result<ValueModel, ErrorKind>
    decreases v,
{
    match v {
        ValueModel::Alias(t) => if has_key(o, t) {
            Ok(value_at(o, t).value)
        } else {
            Err(ErrorKind::TokenNotFound)
        },
        ValueModel::Reference(t) => Ok(ValueModel::Str(opts.var_of(t))),
        ValueModel::Object(m) => match eval_members(o, opts, m) {
            Ok(r) => Ok(ValueModel::Object(r)),
            Err(e) => Err(e),
        },
        ValueModel::Transform(steps) => match eval_steps(o, steps) {
            Ok(Some(r)) => Ok(r),
            Ok(None) => Ok(ValueModel::Null),
            Err(e) => Err(e),
        },
        _ => Ok(v),
    }
}

/// The members of an object, each resolved in order; the first failure wins.
pub open spec fn eval_members(o: Entries, opts: CssKeyOptions, m: Seq<(Seq<char>, ValueModel)>) -> Result<Seq<(Seq<char>, ValueModel)>, ErrorKind>
    decreases m,
{
    if m.len() == 0 {
        Ok(Seq::empty())
    } else {
        match eval_members(o, opts, m.subrange(0, m.len() - 1)) {
            Err(e) => Err(e),
            Ok(r) => match eval(o, opts, m[m.len() - 1].1) {
                Err(e) => Err(e),
                Ok(x) => Ok(r.push((m[m.len() - 1].0, x))),
            },
        }
    }
}

/// One step of a pipeline applied to the current value.
pub open spec fn eval_step(o: Entries, step: StepModel, input: Option<ValueModel>) -> Result<ValueModel, ErrorKind> {
    match builtin_named(step.kind) {
        None => Err(ErrorKind::InvalidTransform),
        Some(Builtin::Alias) => match alias_target(step_arg(step)) {
            None => Err(ErrorKind::InvalidTransform),
            Some(t) => if has_key(o, t) {
                Ok(value_at(o, t).value)
            } else {
                Err(ErrorKind::TokenNotFound)
            },
        },
        Some(b) => numeric_step(b, input, step_arg(step)),
    }
}

/// The steps applied in order, the first to no input; `None` for no steps.
pub open spec fn eval_steps(o: Entries, steps: Seq<StepModel>) -> Result<Option<ValueModel>, ErrorKind>
    decreases steps.len(),
{
    if steps.len() == 0 {
        Ok(None)
    } else {
        match eval_steps(o, steps.drop_last()) {
            Err(e) => Err(e),
            Ok(cur) => match eval_step(o, steps.last(), cur) {
                Err(e) => Err(e),
                Ok(x) => Ok(Some(x)),
            },
        }
    }
}

/// The comment a resolved token carries: its own, or where it has none and is
/// an alias, that of its target.
pub open spec fn inherited_comment(s: Entries, o: Entries, k: Seq<char>) -> Option<Seq<char>> {
    comment_for(value_at(s, k), o)
}

/// The comment carried by the resolution of the source token `src`.
pub open spec fn comment_for(src: TokenModel, o: Entries) -> Option<Seq<char>> {
    match src.comment {
        Some(c) => Some(c),
        None => match src.value {
            ValueModel::Alias(b) => if has_key(o, b) {
                value_at(o, b).comment
            } else {
                None
            },
            _ => None,
        },
    }
}

/// Entry `i` of `o` is the resolution of its source token against the entries
/// before it.
pub open spec fn entry_resolved(s: Entries, o: Entries, opts: CssKeyOptions, i: int) -> bool {
    let k = o[i].0;
    let prev = o.subrange(0, i);
    &&& has_key(s, k)
    &&& o[i].1.name == k
    &&& eval(prev, opts, source_value(s, k)) == Ok::<ValueModel, ErrorKind>(o[i].1.value)
    &&& o[i].1.comment == inherited_comment(s, prev, k)
    &&& forall|t: Seq<char>| ref_mentions(source_value(s, k), t) ==> has_key(s, t)
}

/// Every entry of `o` is resolved from `s`, each only from the entries before it.
pub open spec fn resolved_from(s: Entries, o: Entries, opts: CssKeyOptions) -> bool {
    &&& keys_unique(o)
    &&& forall|i: int| 0 <= i < o.len() ==> entry_resolved(s, o, opts, i)
}

/// What `resolve` guarantees of its result for the source entries `s`.
pub open spec fn resolve_post(s: Entries, opts: CssKeyOptions, r: Result<Entries, ErrorKind>) -> bool {
    &&& r is Ok ==> {
        let o = r->Ok_0;
        &&& resolved_from(s, o, opts)
        &&& forall|k: Seq<char>| has_key(o, k) <==> has_key(s, k)
        &&& !has_alias_cycle(s)
        &&& !has_missing_target(s)
        &&& keys_unique(s) && !has_any_alias(s) ==> o.len() == s.len() && forall|i: int|
            0 <= i < s.len() ==> #[trigger] o[i].0 == s[i].0
    }
    &&& r is Err ==> match r->Err_0 {
        ErrorKind::CycleDetected => has_alias_cycle(s),
        ErrorKind::TokenNotFound => has_missing_target(s),
        ErrorKind::InvalidTransform => has_failing_step(s, opts, ErrorKind::InvalidTransform),
        ErrorKind::TransformFailed => has_failing_step(s, opts, ErrorKind::TransformFailed),
        ErrorKind::TypeMismatch => false,
    }
    &&& (!has_alias_cycle(s) && !has_missing_target(s) && !has_failing_step(s, opts, ErrorKind::InvalidTransform)
        && !has_failing_step(s, opts, ErrorKind::TransformFailed)) ==> r is Ok
}

} // verus!
