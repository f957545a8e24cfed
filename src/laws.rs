use vstd::prelude::*;
use crate::css_var::CssKeyOptions;
use crate::error::ErrorKind;
use crate::output::insert_all;
use crate::resolve_lemmas::{lemma_extends_lookup, lemma_index_of, lemma_index_of_unique, lemma_push_new};
use crate::resolve_spec::{
    resolved_from,
    fails_at, has_failing_step, holds_pipeline,
    alias_mentions, entry_resolved, eval, eval_members, eval_steps, has_alias_cycle,
    has_any_alias, has_any_transform, has_missing_target, has_transform, is_alias_cycle, is_literal,
    ref_mentions, resolve_post, source_value, step_arg, Entries,
};
use crate::tokenset::{has_key, index_of, inserted, keys_unique, value_at};
use crate::transform::{alias_target, builtin_named, Builtin};
use crate::value::{value_wf, StepModel, TokenModel, ValueModel};

verus! {

proof fn lemma_literal_names_nothing(v: ValueModel, t: Seq<char>)
    requires
        is_literal(v),
    ensures
        !alias_mentions(v, t),
        !ref_mentions(v, t),
        !has_transform(v),
    decreases v,
{
    if let ValueModel::Object(m) = v {
        assert forall|i: int| 0 <= i < m.len() implies !alias_mentions(#[trigger] m[i].1, t) && !ref_mentions(m[i].1, t) && !has_transform(m[i].1) by {
            lemma_literal_names_nothing(m[i].1, t);
        }
    }
}

proof fn lemma_pipeline_is_transform(v: ValueModel, steps: Seq<StepModel>)
    requires
        holds_pipeline(v, steps),
    ensures
        has_transform(v),
    decreases v,
{
    if let ValueModel::Object(m) = v {
        let i = choose|i: int| 0 <= i < m.len() && holds_pipeline(#[trigger] m[i].1, steps);
        lemma_pipeline_is_transform(m[i].1, steps);
    }
}

/// A failing pipeline step is a step of some transform of the set.
proof fn lemma_failing_step_is_transform(s: Entries, opts: CssKeyOptions)
    ensures
        has_failing_step(s, opts, ErrorKind::InvalidTransform) ==> has_any_transform(s),
        has_failing_step(s, opts, ErrorKind::TransformFailed) ==> has_any_transform(s),
{
    if has_failing_step(s, opts, ErrorKind::InvalidTransform) {
        let (k, steps, i, o) = choose|k: Seq<char>, steps: Seq<StepModel>, i: int, o: Entries|
            #[trigger] fails_at(s, opts, ErrorKind::InvalidTransform, k, steps, i, o);
        lemma_pipeline_is_transform(source_value(s, k), steps);
    }
    if has_failing_step(s, opts, ErrorKind::TransformFailed) {
        let (k, steps, i, o) = choose|k: Seq<char>, steps: Seq<StepModel>, i: int, o: Entries|
            #[trigger] fails_at(s, opts, ErrorKind::TransformFailed, k, steps, i, o);
        lemma_pipeline_is_transform(source_value(s, k), steps);
    }
}

proof fn lemma_eval_literal(o: Entries, opts: CssKeyOptions, v: ValueModel)
    requires
        is_literal(v),
    ensures
        eval(o, opts, v) == Ok::<ValueModel, ErrorKind>(v),
    decreases v,
{
    if let ValueModel::Object(m) = v {
        lemma_eval_literal_members(o, opts, m);
    }
}

proof fn lemma_eval_literal_members(o: Entries, opts: CssKeyOptions, m: Seq<(Seq<char>, ValueModel)>)
    requires
        forall|i: int| 0 <= i < m.len() ==> is_literal(#[trigger] m[i].1),
    ensures
        eval_members(o, opts, m) == Ok::<Seq<(Seq<char>, ValueModel)>, ErrorKind>(m),
    decreases m,
{
    if m.len() > 0 {
        let init = m.subrange(0, m.len() - 1);
        assert forall|i: int| 0 <= i < init.len() implies is_literal(#[trigger] init[i].1) by {
            assert(init[i] == m[i]);
        }
        lemma_eval_literal_members(o, opts, init);
        let last = m[m.len() - 1];
        lemma_eval_literal(o, opts, last.1);
        assert(eval_members(o, opts, init) == Ok::<Seq<(Seq<char>, ValueModel)>, ErrorKind>(init));
        assert(eval(o, opts, last.1) == Ok::<ValueModel, ErrorKind>(last.1));
        assert(init.push((last.0, last.1)) =~= m);
    } else {
        assert(m =~= Seq::<(Seq<char>, ValueModel)>::empty());
    }
}

/// Idempotence: a set whose values hold no alias, reference or transform, and
/// whose tokens are named by their paths, resolves to itself.
pub proof fn lemma_resolve_literal_set_unchanged(s: Entries, opts: CssKeyOptions, r: Result<Entries, ErrorKind>)
    requires
        keys_unique(s),
        forall|i: int| 0 <= i < s.len() ==> is_literal(#[trigger] s[i].1.value) && s[i].1.name == s[i].0,
        resolve_post(s, opts, r),
    ensures
        r == Ok::<Entries, ErrorKind>(s),
{
    assert forall|k: Seq<char>, t: Seq<char>| has_key(s, k) implies !alias_mentions(source_value(s, k), t)
        && !ref_mentions(source_value(s, k), t) by {
        lemma_index_of(s, k);
        lemma_literal_names_nothing(source_value(s, k), t);
    }
    assert forall|k: Seq<char>| has_key(s, k) implies !has_transform(source_value(s, k)) by {
        lemma_index_of(s, k);
        lemma_literal_names_nothing(source_value(s, k), k);
    }
    assert(!has_any_alias(s));
    assert(!has_missing_target(s));
    assert(!has_any_transform(s));
    lemma_failing_step_is_transform(s, opts);
    assert(!has_alias_cycle(s)) by {
        if has_alias_cycle(s) {
            let q = choose|q: Seq<Seq<char>>| is_alias_cycle(s, q);
            assert(crate::resolve_spec::alias_edge(s, q[0], q[1]));
        }
    }
    let o = r->Ok_0;
    assert forall|i: int| 0 <= i < s.len() implies o[i] == s[i] by {
        lemma_index_of_unique(s, i);
        assert(o[i].0 == s[i].0);
        assert(entry_resolved(s, o, opts, i));
        lemma_eval_literal(o.subrange(0, i), opts, s[i].1.value);
    }
    assert(o =~= s);
}

/// Every entry value of `o` holds no alias, reference or transform.
pub open spec fn all_literal(o: Entries) -> bool {
    forall|i: int| 0 <= i < o.len() ==> is_literal(#[trigger] o[i].1.value)
}

proof fn lemma_eval_gives_literal(o: Entries, opts: CssKeyOptions, v: ValueModel)
    requires
        all_literal(o),
        eval(o, opts, v) is Ok,
    ensures
        is_literal(eval(o, opts, v)->Ok_0),
    decreases v,
{
    match v {
        ValueModel::Alias(t) => {
            lemma_index_of(o, t);
        },
        ValueModel::Object(m) => {
            lemma_members_give_literal(o, opts, m);
        },
        ValueModel::Transform(steps) => {
            lemma_steps_give_literal(o, steps);
        },
        _ => {},
    }
}

proof fn lemma_members_give_literal(o: Entries, opts: CssKeyOptions, m: Seq<(Seq<char>, ValueModel)>)
    requires
        all_literal(o),
        eval_members(o, opts, m) is Ok,
    ensures
        forall|i: int| 0 <= i < m.len() ==> is_literal(#[trigger] eval_members(o, opts, m)->Ok_0[i].1),
        eval_members(o, opts, m)->Ok_0.len() == m.len(),
    decreases m,
{
    if m.len() > 0 {
        let init = m.subrange(0, m.len() - 1);
        lemma_members_give_literal(o, opts, init);
        lemma_eval_gives_literal(o, opts, m[m.len() - 1].1);
        let r = eval_members(o, opts, init)->Ok_0;
        let x = eval(o, opts, m[m.len() - 1].1)->Ok_0;
        assert forall|i: int| 0 <= i < m.len() implies is_literal(#[trigger] eval_members(o, opts, m)->Ok_0[i].1) by {
            if i < m.len() - 1 {
                assert(r.push((m[m.len() - 1].0, x))[i] == r[i]);
            }
        }
    }
}

proof fn lemma_steps_give_literal(o: Entries, steps: Seq<StepModel>)
    requires
        all_literal(o),
        eval_steps(o, steps) is Ok,
    ensures
        eval_steps(o, steps)->Ok_0 matches Some(x) ==> is_literal(x),
    decreases steps.len(),
{
    if steps.len() > 0 {
        lemma_steps_give_literal(o, steps.drop_last());
        match alias_target(step_arg(steps.last())) {
            Some(t) => {
                lemma_index_of(o, t);
            },
            None => {},
        }
    }
}

proof fn lemma_resolved_literal(s: Entries, o: Entries, opts: CssKeyOptions, n: int)
    requires
        resolved_from(s, o, opts),
        0 <= n <= o.len(),
    ensures
        all_literal(o.subrange(0, n)),
    decreases n,
{
    if n > 0 {
        lemma_resolved_literal(s, o, opts, n - 1);
        assert(entry_resolved(s, o, opts, n - 1));
        lemma_eval_gives_literal(o.subrange(0, n - 1), opts, source_value(s, o[n - 1].0));
        assert forall|i: int| 0 <= i < n implies is_literal(#[trigger] o.subrange(0, n)[i].1.value) by {
            if i < n - 1 {
                assert(o.subrange(0, n)[i] == o.subrange(0, n - 1)[i]);
            }
        }
    }
}

/// Resolution leaves no alias, reference or transform in any value.
pub proof fn lemma_resolved_values_literal(s: Entries, opts: CssKeyOptions, r: Result<Entries, ErrorKind>)
    requires
        resolve_post(s, opts, r),
        r is Ok,
    ensures
        forall|i: int| 0 <= i < r->Ok_0.len() ==> is_literal(#[trigger] r->Ok_0[i].1.value),
{
    let o = r->Ok_0;
    lemma_resolved_literal(s, o, opts, o.len() as int);
    assert(o.subrange(0, o.len() as int) =~= o);
}

/// Idempotence: resolving the result of a resolution gives it back unchanged.
pub proof fn lemma_resolve_twice(s: Entries, opts: CssKeyOptions, r1: Result<Entries, ErrorKind>, r2: Result<Entries, ErrorKind>)
    requires
        resolve_post(s, opts, r1),
        r1 is Ok,
        resolve_post(r1->Ok_0, opts, r2),
    ensures
        r2 == r1,
{
    let o = r1->Ok_0;
    lemma_resolved_values_literal(s, opts, r1);
    assert forall|i: int| 0 <= i < o.len() implies is_literal(#[trigger] o[i].1.value) && o[i].1.name == o[i].0 by {
        assert(entry_resolved(s, o, opts, i));
    }
    lemma_resolve_literal_set_unchanged(o, opts, r2);
}

/// Every entry value of `o` is well formed.
pub open spec fn all_wf(o: Entries) -> bool {
    forall|i: int| 0 <= i < o.len() ==> value_wf(#[trigger] o[i].1.value)
}

proof fn lemma_eval_keeps_wf(o: Entries, opts: CssKeyOptions, v: ValueModel)
    requires
        all_wf(o),
        value_wf(v),
        eval(o, opts, v) is Ok,
    ensures
        value_wf(eval(o, opts, v)->Ok_0),
    decreases v,
{
    match v {
        ValueModel::Alias(t) => {
            lemma_index_of(o, t);
        },
        ValueModel::Object(m) => {
            lemma_members_keep_wf(o, opts, m);
        },
        ValueModel::Transform(steps) => {
            lemma_steps_keep_wf(o, steps);
        },
        _ => {},
    }
}

proof fn lemma_members_keep_wf(o: Entries, opts: CssKeyOptions, m: Seq<(Seq<char>, ValueModel)>)
    requires
        all_wf(o),
        forall|i: int| 0 <= i < m.len() ==> value_wf(#[trigger] m[i].1),
        eval_members(o, opts, m) is Ok,
    ensures
        eval_members(o, opts, m)->Ok_0.len() == m.len(),
        forall|i: int| 0 <= i < m.len() ==> (#[trigger] eval_members(o, opts, m)->Ok_0[i]).0 == m[i].0
            && value_wf(eval_members(o, opts, m)->Ok_0[i].1),
    decreases m,
{
    if m.len() > 0 {
        let init = m.subrange(0, m.len() - 1);
        assert forall|i: int| 0 <= i < init.len() implies value_wf(#[trigger] init[i].1) by {
            assert(init[i] == m[i]);
        }
        lemma_members_keep_wf(o, opts, init);
        lemma_eval_keeps_wf(o, opts, m[m.len() - 1].1);
        let r = eval_members(o, opts, init)->Ok_0;
        let x = eval(o, opts, m[m.len() - 1].1)->Ok_0;
        assert forall|i: int| 0 <= i < m.len() implies (#[trigger] eval_members(o, opts, m)->Ok_0[i]).0 == m[i].0
            && value_wf(eval_members(o, opts, m)->Ok_0[i].1) by {
            if i < m.len() - 1 {
                assert(r.push((m[m.len() - 1].0, x))[i] == r[i]);
                assert(init[i] == m[i]);
            }
        }
    }
}

proof fn lemma_steps_keep_wf(o: Entries, steps: Seq<StepModel>)
    requires
        all_wf(o),
        eval_steps(o, steps) is Ok,
    ensures
        eval_steps(o, steps)->Ok_0 matches Some(x) ==> value_wf(x),
    decreases steps.len(),
{
    if steps.len() > 0 {
        lemma_steps_keep_wf(o, steps.drop_last());
        match alias_target(step_arg(steps.last())) {
            Some(t) => {
                lemma_index_of(o, t);
            },
            None => {},
        }
    }
}

proof fn lemma_resolved_wf(s: Entries, o: Entries, opts: CssKeyOptions, n: int)
    requires
        resolved_from(s, o, opts),
        forall|k: Seq<char>| has_key(s, k) ==> value_wf(#[trigger] source_value(s, k)),
        0 <= n <= o.len(),
    ensures
        all_wf(o.subrange(0, n)),
    decreases n,
{
    if n > 0 {
        lemma_resolved_wf(s, o, opts, n - 1);
        assert(entry_resolved(s, o, opts, n - 1));
        lemma_eval_keeps_wf(o.subrange(0, n - 1), opts, source_value(s, o[n - 1].0));
        assert forall|i: int| 0 <= i < n implies value_wf(#[trigger] o.subrange(0, n)[i].1.value) by {
            if i < n - 1 {
                assert(o.subrange(0, n)[i] == o.subrange(0, n - 1)[i]);
            }
        }
    }
}

/// Resolution keeps object member keys unique: where no source value holds
/// an object with a repeated key, no resolved value does.
pub proof fn lemma_resolved_values_wf(s: Entries, opts: CssKeyOptions, r: Result<Entries, ErrorKind>)
    requires
        resolve_post(s, opts, r),
        r is Ok,
        forall|i: int| 0 <= i < s.len() ==> value_wf(#[trigger] s[i].1.value),
    ensures
        forall|i: int| 0 <= i < r->Ok_0.len() ==> value_wf(#[trigger] r->Ok_0[i].1.value),
{
    let o = r->Ok_0;
    assert forall|k: Seq<char>| has_key(s, k) implies value_wf(#[trigger] source_value(s, k)) by {
        lemma_index_of(s, k);
        let j = index_of(s, k)->0;
        assert(value_wf(s[j].1.value));
    }
    lemma_resolved_wf(s, o, opts, o.len() as int);
    assert(o.subrange(0, o.len() as int) =~= o);
}

/// Alias transparency: a token whose value is an alias of `b` resolves to
/// exactly the resolved value of `b`.
pub proof fn lemma_alias_transparent(s: Entries, opts: CssKeyOptions, r: Result<Entries, ErrorKind>, a: Seq<char>, b: Seq<char>)
    requires
        resolve_post(s, opts, r),
        r is Ok,
        has_key(s, a),
        source_value(s, a) == ValueModel::Alias(b),
    ensures
        has_key(r->Ok_0, a),
        has_key(r->Ok_0, b),
        value_at(r->Ok_0, a).value == value_at(r->Ok_0, b).value,
{
    let o = r->Ok_0;
    lemma_index_of(o, a);
    let i = index_of(o, a)->0;
    assert(entry_resolved(s, o, opts, i));
    let prev = o.subrange(0, i);
    assert(o.subrange(0, prev.len() as int) =~= prev);
    lemma_extends_lookup(prev, o, b);
}

/// A reference resolves to the indirection to its target, not to the
/// target's value.
pub proof fn lemma_reference_is_indirection(s: Entries, opts: CssKeyOptions, r: Result<Entries, ErrorKind>, a: Seq<char>, t: Seq<char>)
    requires
        resolve_post(s, opts, r),
        r is Ok,
        has_key(s, a),
        source_value(s, a) == ValueModel::Reference(t),
    ensures
        has_key(r->Ok_0, a),
        value_at(r->Ok_0, a).value == ValueModel::Str(opts.var_of(t)),
{
    let o = r->Ok_0;
    lemma_index_of(o, a);
    let i = index_of(o, a)->0;
    assert(entry_resolved(s, o, opts, i));
}

/// Cycle detection: a set whose aliases form a cycle never resolves; where
/// it also names no missing path and holds no transform, the error is a
/// detected cycle.
pub proof fn lemma_cycle_never_resolves(s: Entries, opts: CssKeyOptions, r: Result<Entries, ErrorKind>, q: Seq<Seq<char>>)
    requires
        resolve_post(s, opts, r),
        is_alias_cycle(s, q),
    ensures
        r is Err,
        !has_missing_target(s) && !has_any_transform(s) ==> r == Err::<Entries, ErrorKind>(ErrorKind::CycleDetected),
{
    lemma_failing_step_is_transform(s, opts);
}

/// Two tokens that alias each other never resolve.
pub proof fn lemma_mutual_aliases_fail(s: Entries, opts: CssKeyOptions, r: Result<Entries, ErrorKind>, a: Seq<char>, b: Seq<char>)
    requires
        resolve_post(s, opts, r),
        has_key(s, a),
        has_key(s, b),
        source_value(s, a) == ValueModel::Alias(b),
        source_value(s, b) == ValueModel::Alias(a),
    ensures
        r is Err,
{
    let q = seq![a, b, a];
    assert(crate::resolve_spec::alias_edge(s, q[0], q[1]));
    assert(crate::resolve_spec::alias_edge(s, q[1], q[2]));
    assert(is_alias_cycle(s, q));
    lemma_cycle_never_resolves(s, opts, r, q);
}

/// The set `{a: alias(b), b: alias(a)}` fails with a detected cycle.
pub proof fn lemma_two_cycle_detected(opts: CssKeyOptions, r: Result<Entries, ErrorKind>, a: Seq<char>, b: Seq<char>, ta: TokenModel, tb: TokenModel)
    requires
        a != b,
        ta.value == ValueModel::Alias(b),
        tb.value == ValueModel::Alias(a),
        resolve_post(seq![(a, ta), (b, tb)], opts, r),
    ensures
        r == Err::<Entries, ErrorKind>(ErrorKind::CycleDetected),
{
    let s = seq![(a, ta), (b, tb)];
    assert(s.drop_last() =~= seq![(a, ta)]);
    assert(seq![(a, ta)].drop_last() =~= Seq::<(Seq<char>, TokenModel)>::empty());
    assert(index_of(Seq::<(Seq<char>, TokenModel)>::empty(), a) is None);
    assert(index_of(Seq::<(Seq<char>, TokenModel)>::empty(), b) is None);
    assert(index_of(seq![(a, ta)], a) == Some(0int));
    assert(index_of(seq![(a, ta)], b) is None);
    assert(index_of(s, a) == Some(0int));
    assert(index_of(s, b) == Some(1int));
    lemma_mutual_aliases_fail(s, opts, r, a, b);
    assert forall|k: Seq<char>, t: Seq<char>| has_key(s, k) implies
        (alias_mentions(source_value(s, k), t) ==> has_key(s, t)) && !ref_mentions(source_value(s, k), t) by {
        lemma_index_of(s, k);
    }
    assert forall|k: Seq<char>| has_key(s, k) implies !has_transform(source_value(s, k)) by {
        lemma_index_of(s, k);
    }
    assert(!has_missing_target(s));
    assert(!has_any_transform(s));
    lemma_failing_step_is_transform(s, opts);
}

/// Missing target: a token aliasing a path that the set lacks never
/// resolves; where the set has no alias cycle and no transform, the error is
/// a missing token.
pub proof fn lemma_missing_alias_target_fails(s: Entries, opts: CssKeyOptions, r: Result<Entries, ErrorKind>, a: Seq<char>, b: Seq<char>)
    requires
        resolve_post(s, opts, r),
        has_key(s, a),
        source_value(s, a) == ValueModel::Alias(b),
        !has_key(s, b),
    ensures
        r is Err,
        !has_alias_cycle(s) && !has_any_transform(s) ==> r == Err::<Entries, ErrorKind>(ErrorKind::TokenNotFound),
{
    assert(alias_mentions(source_value(s, a), b));
    assert(has_missing_target(s));
    lemma_failing_step_is_transform(s, opts);
}

/// A `divide` step by zero.
pub open spec fn divides_by_zero(step: StepModel) -> bool {
    &&& builtin_named(step.kind) == Some(Builtin::Divide)
    &&& step_arg(step) matches Some(ValueModel::Number(z))
    &&& z.numer_spec() == 0
}

/// Divide by zero: a pipeline with a `divide(0)` step anywhere never yields a
/// value, and where the steps before it succeed it fails with `TransformFailed`.
pub proof fn lemma_divide_by_zero_fails(o: Entries, steps: Seq<StepModel>, j: int)
    requires
        0 <= j < steps.len(),
        divides_by_zero(steps[j]),
    ensures
        eval_steps(o, steps) is Err,
        eval_steps(o, steps.subrange(0, j)) is Ok ==> eval_steps(o, steps.subrange(0, j + 1))
            == Err::<Option<ValueModel>, ErrorKind>(ErrorKind::TransformFailed),
    decreases steps.len(),
{
    assert(steps.subrange(0, j + 1).drop_last() =~= steps.subrange(0, j));
    if j == steps.len() - 1 {
        assert(steps.drop_last() =~= steps.subrange(0, j));
    } else {
        lemma_divide_by_zero_fails(o, steps.drop_last(), j);
        assert(steps.drop_last().subrange(0, j) =~= steps.subrange(0, j));
        assert(steps.drop_last().subrange(0, j + 1) =~= steps.subrange(0, j + 1));
    }
}

/// A token whose pipeline divides by zero makes the whole resolution fail.
pub proof fn lemma_divide_by_zero_unresolvable(s: Entries, opts: CssKeyOptions, r: Result<Entries, ErrorKind>, a: Seq<char>, steps: Seq<StepModel>, j: int)
    requires
        resolve_post(s, opts, r),
        has_key(s, a),
        source_value(s, a) == ValueModel::Transform(steps),
        0 <= j < steps.len(),
        divides_by_zero(steps[j]),
    ensures
        r is Err,
{
    if r is Ok {
        let o = r->Ok_0;
        lemma_index_of(o, a);
        let i = index_of(o, a)->0;
        assert(entry_resolved(s, o, opts, i));
        lemma_divide_by_zero_fails(o.subrange(0, i), steps, j);
    }
}

proof fn lemma_same_keys_index<V>(e1: Seq<(Seq<char>, V)>, e2: Seq<(Seq<char>, V)>, x: Seq<char>)
    requires
        e1.len() == e2.len(),
        forall|i: int| 0 <= i < e1.len() ==> (#[trigger] e1[i]).0 == e2[i].0,
    ensures
        index_of(e1, x) == index_of(e2, x),
    decreases e1.len(),
{
    if e1.len() > 0 {
        let (d1, d2) = (e1.drop_last(), e2.drop_last());
        assert forall|i: int| 0 <= i < d1.len() implies (#[trigger] d1[i]).0 == d2[i].0 by {
            assert(d1[i] == e1[i] && d2[i] == e2[i]);
        }
        lemma_same_keys_index(d1, d2, x);
    }
}

proof fn lemma_insert_all_keys<V>(e: Seq<(Seq<char>, V)>, add: Seq<(Seq<char>, V)>)
    requires
        keys_unique(e),
    ensures
        keys_unique(insert_all(e, add)),
        insert_all(e, add).len() >= e.len(),
        forall|i: int| 0 <= i < e.len() ==> (#[trigger] insert_all(e, add)[i]).0 == e[i].0,
        forall|k: Seq<char>| has_key(insert_all(e, add), k) <==> has_key(e, k) || has_key(add, k),
        forall|k: Seq<char>|
            has_key(insert_all(e, add), k) ==> #[trigger] value_at(insert_all(e, add), k) == if has_key(add, k) {
                last_value(add, k)
            } else {
                value_at(e, k)
            },
    decreases add.len(),
{
    if add.len() > 0 {
        let prev = insert_all(e, add.drop_last());
        lemma_insert_all_keys(e, add.drop_last());
        let (k, v) = add.last();
        lemma_index_of(prev, k);
        let r = insert_all(e, add);
        assert(r == inserted(prev, k, v));
        assert forall|x: Seq<char>| has_key(add, x) <==> has_key(add.drop_last(), x) || x == k by {
            lemma_index_of(add, x);
            lemma_index_of(add.drop_last(), x);
            if has_key(add, x) && x != k {
                let i = index_of(add, x)->0;
                assert(add.drop_last()[i] == add[i]);
            }
            if has_key(add.drop_last(), x) {
                let i = index_of(add.drop_last(), x)->0;
                assert(add[i] == add.drop_last()[i]);
            }
        }
        assert(add[add.len() - 1].0 == k);
        lemma_index_of(add, k);
        assert(has_key(add, k));
        assert(last_value(add, k) == v);
        match index_of(prev, k) {
            Some(i) => {
                assert forall|a: int, b: int| 0 <= a < b < r.len() implies r[a].0 != r[b].0 by {
                    assert(prev[a].0 != prev[b].0);
                }
                assert forall|x: Seq<char>| index_of(r, x) == index_of(prev, x) by {
                    lemma_same_keys_index(r, prev, x);
                }
                assert(value_at(r, k) == v);
            },
            None => {
                lemma_push_new(prev, k, v);
                assert forall|a: int, b: int| 0 <= a < b < r.len() implies r[a].0 != r[b].0 by {
                    if b < prev.len() {
                        assert(prev[a].0 != prev[b].0);
                    }
                }
                assert(value_at(r, k) == v);
            },
        }
        assert forall|x: Seq<char>| has_key(r, x) && x != k implies #[trigger] value_at(r, x) == value_at(prev, x) && has_key(prev, x) by {
            lemma_index_of(r, x);
            lemma_index_of(prev, x);
            assert(index_of(r, x) == index_of(prev, x));
            let j = index_of(r, x)->0;
            assert(r[j] == prev[j]);
        }
        assert forall|x: Seq<char>| x != k implies #[trigger] last_value(add, x) == last_value(add.drop_last(), x) by {}
    }
}

/// The value of the last entry with key `k`.
pub open spec fn last_value<V>(e: Seq<(Seq<char>, V)>, k: Seq<char>) -> V
    decreases e.len(),
{
    if e.len() == 0 {
        arbitrary()
    } else if e.last().0 == k {
        e.last().1
    } else {
        last_value(e.drop_last(), k)
    }
}

proof fn lemma_insert_all_unique<V>(e: Seq<(Seq<char>, V)>)
    requires
        keys_unique(e),
    ensures
        insert_all(Seq::empty(), e) == e,
    decreases e.len(),
{
    if e.len() > 0 {
        let d = e.drop_last();
        assert(keys_unique(d));
        lemma_insert_all_unique(d);
        lemma_index_of(d, e.last().0);
        if has_key(d, e.last().0) {
            let j = index_of(d, e.last().0)->0;
            assert(e[j].0 == e[e.len() - 1].0);
        }
        assert(d.push(e.last()) =~= e);
    } else {
        assert(e =~= Seq::<(Seq<char>, V)>::empty());
    }
}

proof fn lemma_last_value_unique<V>(e: Seq<(Seq<char>, V)>, k: Seq<char>)
    requires
        keys_unique(e),
        has_key(e, k),
    ensures
        last_value(e, k) == value_at(e, k),
    decreases e.len(),
{
    let d = e.drop_last();
    lemma_index_of(e, k);
    lemma_index_of(d, k);
    let i = index_of(e, k)->0;
    if e.last().0 != k {
        assert(keys_unique(d));
        assert(d[i] == e[i]);
        lemma_last_value_unique(d, k);
    } else if i < e.len() - 1 {
        assert(e[i].0 != e[e.len() - 1].0);
    }
}

/// Merge precedence: the merge holds the keys of both sets, each once; a key
/// of `overrides` carries its token from `overrides`, any other its token
/// from `base`; and the keys of `base` keep their order at the front.
pub proof fn lemma_merge_precedence(base: Entries, overrides: Entries)
    requires
        keys_unique(base),
        keys_unique(overrides),
    ensures
        ({
            let r = insert_all(insert_all(Seq::empty(), base), overrides);
            &&& keys_unique(r)
            &&& r.len() >= base.len()
            &&& forall|i: int| 0 <= i < base.len() ==> (#[trigger] r[i]).0 == base[i].0
            &&& forall|k: Seq<char>| has_key(r, k) <==> has_key(base, k) || has_key(overrides, k)
            &&& forall|k: Seq<char>|
                has_key(r, k) ==> #[trigger] value_at(r, k) == if has_key(overrides, k) {
                    value_at(overrides, k)
                } else {
                    value_at(base, k)
                }
        }),
{
    lemma_insert_all_unique(base);
    lemma_insert_all_keys(base, overrides);
    assert forall|k: Seq<char>| has_key(overrides, k) implies last_value(overrides, k) == value_at(overrides, k) by {
        lemma_last_value_unique(overrides, k);
    }
}

} // verus!
