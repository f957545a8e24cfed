use vstd::prelude::*;
use vstd::string::*;
use crate::css_var::{css_var, CssKeyOptions};
use crate::error::{invalid_transform, outcome, ErrorKind, ResolveError};
use crate::resolve_lemmas::{
    extends, lemma_extends_lookup,
    lemma_extends_refl, lemma_extends_trans, lemma_index_of, lemma_index_of_unique, lemma_members_extends,
    lemma_eval_alias_found, lemma_push_new, lemma_resolved_acyclic, lemma_resolved_reaches_no_cycle,
    lemma_steps_extends,
};
use crate::resolve_spec::{
    alias_edge, alias_mentions, comment_for, entry_resolved, eval, eval_members, eval_step,
    eval_steps, fails_at, has_alias_cycle, has_any_alias, has_failing_step, has_missing_target, holds_pipeline,
    has_transform, is_alias_cycle, ref_mentions, resolve_post, resolved_from,
    source_value, step_alias, step_arg, Entries, arrow_chain, closes_on_itself,
    message_ok, missing_from, not_found_text, cycle_from, reaches_cycle,
};
use crate::tokenset::{
    has_key, index_of, keys_unique, new_token_set, token_entries, token_set_contains,
    token_set_entry, token_set_get, token_set_insert, token_set_len, value_at, TokenSet,
};
use crate::transform::{alias_target, apply_numeric, builtin_named, first_arg, opt_model, Builtin, TransformRegistry};
use crate::value::{
    copy_opt_string, copy_value, opt_str_view, StepModel, Token, TokenModel, TokenValue,
    TransformExpr, TransformStep, ValueModel,
};

verus! {

pub open spec fn stack_view(st: Seq<String>) -> Seq<Seq<char>> {
    st.map_values(|s: String| s@)
}

/// The paths being resolved, outermost first: distinct paths of the source
/// set, none resolved yet, each taking its value from the next.
pub open spec fn stack_ok(s: Entries, o: Entries, st: Seq<Seq<char>>) -> bool {
    &&& st.no_duplicates()
    &&& forall|i: int| 0 <= i < st.len() ==> has_key(s, #[trigger] st[i]) && !has_key(o, st[i])
    &&& forall|i: int| 0 <= i < st.len() - 1 ==> alias_edge(s, #[trigger] st[i], st[i + 1])
}

/// Everything that `v` names, `src` names too.
pub open spec fn within(v: ValueModel, src: ValueModel) -> bool {
    &&& forall|t: Seq<char>| alias_mentions(v, t) ==> alias_mentions(src, t)
    &&& forall|t: Seq<char>| ref_mentions(v, t) ==> ref_mentions(src, t)
    &&& has_transform(v) ==> has_transform(src)
    &&& forall|st: Seq<StepModel>| holds_pipeline(v, st) ==> holds_pipeline(src, st)
}

pub open spec fn any_alias(v: ValueModel) -> bool {
    exists|t: Seq<char>| alias_mentions(v, t)
}

/// An error comes with what in the source set explains it.
pub open spec fn error_ok(s: Entries, opts: CssKeyOptions, e: ResolveError) -> bool {
    &&& e is TokenNotFound ==> exists|k: Seq<char>, t: Seq<char>|
        #[trigger] missing_from(s, k, t) && e.message() == not_found_text(t, k)
    &&& match e.kind() {
        ErrorKind::CycleDetected => has_alias_cycle(s),
        ErrorKind::TokenNotFound => has_missing_target(s),
        ErrorKind::InvalidTransform => has_failing_step(s, opts, ErrorKind::InvalidTransform),
        ErrorKind::TransformFailed => has_failing_step(s, opts, ErrorKind::TransformFailed),
        ErrorKind::TypeMismatch => false,
    }
}

pub open spec fn step_view(step: TransformStep) -> StepModel {
    StepModel { kind: step.kind@, args: Seq::new(step.args.len() as nat, |j: int| step.args@[j]@) }
}

pub open spec fn expr_view(e: TransformExpr) -> Seq<StepModel> {
    Seq::new(e.steps.len() as nat, |i: int| step_view(e.steps@[i]))
}

/// The model of what `resolve` returns.
pub open spec fn set_outcome(r: Result<TokenSet, ResolveError>) -> Result<Entries, ErrorKind> {
    match r {
        Ok(m) => Ok(token_entries(m)),
        Err(e) => Err(e.kind()),
    }
}

/// `e` is the error with which `step` itself fails on `input`, read against `o`.
pub open spec fn direct_step_error(o: Entries, step: StepModel, input: Option<ValueModel>, e: ResolveError) -> bool {
    &&& (e.kind() == ErrorKind::InvalidTransform || e.kind() == ErrorKind::TransformFailed)
    &&& eval_step(o, step, input) == Err::<ValueModel, ErrorKind>(e.kind())
}

/// A cycle error met below a walk with stack `st` names the rest `u` of the
/// chain: `st + u` walks alias edges back to a path passed already.
pub open spec fn chain_ok(s: Entries, st: Seq<Seq<char>>, e: ResolveError) -> bool {
    e is CycleDetected ==> exists|u: Seq<Seq<char>>|
        #[trigger] closes_on_itself(s, st + u) && (st + u).drop_last().no_duplicates() && u.len() >= 1
            && e.message() == arrow_chain(u)
}

/// The paths of a set.
pub open spec fn key_set(s: Entries) -> Set<Seq<char>> {
    s.map_values(|e: (Seq<char>, TokenModel)| e.0).to_set()
}

/// How many paths of the set are not on the stack: each nested alias walk
/// takes one more, so this bounds how deep a walk goes.
pub open spec fn unvisited(s: Entries, st: Seq<String>) -> nat {
    key_set(s).difference(stack_view(st).to_set()).len()
}

/// What each step of the walk guarantees from any state: resolved entries are
/// only appended, each under a path of the set that was not on the stack; the
/// stack only grows, and comes back as it was where the step succeeds.
pub open spec fn walk_frame(s: Entries, o1: Entries, o2: Entries, st1: Seq<String>, st2: Seq<String>, ok: bool) -> bool {
    &&& extends(o1, o2)
    &&& forall|i: int| o1.len() <= i < o2.len() ==> has_key(s, #[trigger] o2[i].0) && !stack_view(st1).contains(o2[i].0)
    &&& st1.len() <= st2.len()
    &&& st2.subrange(0, st1.len() as int) == st1
    &&& ok ==> st2 == st1
}

/// The conditions under which a step of the walk keeps the resolved entries
/// well formed and explains its errors.
pub open spec fn walk_inv(s: Entries, o: Entries, opts: CssKeyOptions, st: Seq<String>) -> bool {
    &&& resolved_from(s, o, opts)
    &&& stack_ok(s, o, stack_view(st))
}

proof fn lemma_walk_refl(s: Entries, o: Entries, st: Seq<String>)
    ensures
        walk_frame(s, o, o, st, st, true),
{
    lemma_extends_refl(o);
    assert(st.subrange(0, st.len() as int) =~= st);
}

proof fn lemma_walk_trans(s: Entries, o0: Entries, o1: Entries, o2: Entries, st0: Seq<String>, st2: Seq<String>, ok: bool)
    requires
        walk_frame(s, o0, o1, st0, st0, true),
        walk_frame(s, o1, o2, st0, st2, ok),
    ensures
        walk_frame(s, o0, o2, st0, st2, ok),
{
    lemma_extends_trans(o0, o1, o2);
    assert forall|i: int| o0.len() <= i < o2.len() implies has_key(s, #[trigger] o2[i].0) && !stack_view(st0).contains(o2[i].0) by {
        if i < o1.len() {
            assert(o2.subrange(0, o1.len() as int)[i] == o2[i]);
        }
    }
}

proof fn lemma_stack_view_push(st: Seq<String>, t: String)
    ensures
        stack_view(st.push(t)) == stack_view(st).push(t@),
        forall|x: Seq<char>| stack_view(st).contains(x) ==> stack_view(st.push(t)).contains(x),
{
    assert(stack_view(st.push(t)) =~= stack_view(st).push(t@));
    assert forall|x: Seq<char>| stack_view(st).contains(x) implies stack_view(st.push(t)).contains(x) by {
        let i = choose|i: int| 0 <= i < stack_view(st).len() && stack_view(st)[i] == x;
        assert(stack_view(st.push(t))[i] == x);
    }
}

proof fn lemma_unvisited_push(s: Entries, st: Seq<String>, t: String)
    requires
        has_key(s, t@),
        !stack_view(st).contains(t@),
    ensures
        unvisited(s, st.push(t)) < unvisited(s, st),
{
    broadcast use vstd::set::group_set_axioms;
    broadcast use vstd::seq_lib::group_seq_properties;
    lemma_stack_view_push(st, t);
    let keys = s.map_values(|e: (Seq<char>, TokenModel)| e.0);
    vstd::seq_lib::seq_to_set_is_finite(keys);
    lemma_index_of(s, t@);
    let j = index_of(s, t@)->0;
    assert(keys[j] == t@);
    assert(key_set(s).contains(t@));
    let d = key_set(s).difference(stack_view(st).to_set());
    vstd::set_lib::lemma_set_subset_finite(key_set(s), d);
    let st1 = stack_view(st.push(t));
    assert(st1.to_set() =~= stack_view(st).to_set().insert(t@)) by {
        assert forall|x: Seq<char>| st1.to_set().contains(x) <==> stack_view(st).to_set().insert(t@).contains(x) by {
            if st1.contains(x) && x != t@ {
                let i = choose|i: int| 0 <= i < st1.len() && st1[i] == x;
                assert(stack_view(st)[i] == x);
            }
            if x == t@ {
                assert(st1[st1.len() - 1] == t@);
            }
        }
    }
    assert(key_set(s).difference(st1.to_set()) =~= d.remove(t@));
    assert(d.contains(t@));
}

/// What holds on entry to each step of the walk.
pub open spec fn frame_pre(s: Entries, o: Entries, opts: CssKeyOptions, st: Seq<String>, name: Seq<char>) -> bool {
    &&& resolved_from(s, o, opts)
    &&& stack_ok(s, o, stack_view(st))
    &&& st.len() > 0
    &&& st.last()@ == name
    &&& has_key(s, name)
}

/// What holds on entry to the resolution of a value `v` of the token `name`.
pub open spec fn value_pre(s: Entries, o: Entries, opts: CssKeyOptions, st: Seq<String>, name: Seq<char>, v: ValueModel) -> bool {
    frame_pre(s, o, opts, st, name) && within(v, source_value(s, name))
}

pub proof fn lemma_transform_view(v: TokenValue)
    requires
        v is Transform,
    ensures
        v@ == ValueModel::Transform(expr_view(v->Transform_0)),
{
    let e = v->Transform_0;
    if let ValueModel::Transform(a) = v@ {
        let b = expr_view(e);
        assert forall|k: int| 0 <= k < a.len() implies a[k] == b[k] by {
            assert(a[k].args =~= b[k].args);
        }
        assert(a =~= b);
    }
}

/// Where `t` is on the stack, if it is.
fn stack_position(stack: &Vec<String>, t: &String) -> (r: Option<usize>)
    ensures
        match r {
            Some(j) => j < stack.len() && stack@[j as int]@ == t@,
            None => forall|j: int| 0 <= j < stack.len() ==> stack@[j]@ != t@,
        },
{
    let mut j: usize = 0;
    while j < stack.len()
        invariant
            j <= stack.len(),
            forall|k: int| 0 <= k < j ==> stack@[k]@ != t@,
        decreases stack.len() - j,
    {
        if crate::text::same_text(stack[j].as_str(), t.as_str()) {
            return Some(j);
        }
        j = j + 1;
    }
    None
}

fn not_found_message(target: &String, name: &String) -> (r: String)
    ensures
        r@ == not_found_text(target@, name@),
{
    let mut m = target.clone();
    m.append(" (referenced by ");
    m.append(name.as_str());
    m.append(")");
    m
}

/// The comment for the resolution of `source`: its own, or where it has none
/// and is an alias, that of its resolved target.
fn resolved_token_comment(resolved: &TokenSet, source: &Token) -> (r: Option<String>)
    ensures
        opt_str_view(r) == comment_for(source@, token_entries(*resolved)),
{
    match &source.comment {
        Some(c) => Some(c.clone()),
        None => match &source.value {
            TokenValue::Alias(b) => match token_set_get(resolved, b.as_str()) {
                Some(t) => copy_opt_string(&t.comment),
                None => None,
            },
            _ => None,
        },
    }
}

/// A walk that starts from `st` over `o1` and fails with `e` may have grown
/// the stack, but has only appended entries under paths not on `st`.
proof fn lemma_walk_weaken(s: Entries, o1: Entries, o2: Entries, st: Seq<String>, t: String, st2: Seq<String>)
    requires
        walk_frame(s, o1, o2, st.push(t), st2, false),
    ensures
        walk_frame(s, o1, o2, st, st2, false),
{
    lemma_stack_view_push(st, t);
    assert(st.push(t).subrange(0, st.len() as int) =~= st);
    assert(st2.subrange(0, st.len() as int) =~= st2.subrange(0, st.push(t).len() as int).subrange(0, st.len() as int));
}

/// A path missing before a walk, and on its stack throughout, is missing after it.
proof fn lemma_not_added(s: Entries, o1: Entries, o2: Entries, st: Seq<String>, st2: Seq<String>, ok: bool, t: Seq<char>)
    requires
        walk_frame(s, o1, o2, st, st2, ok),
        !has_key(o1, t),
        stack_view(st).contains(t),
    ensures
        !has_key(o2, t),
{
    lemma_index_of(o1, t);
    lemma_index_of(o2, t);
    if has_key(o2, t) {
        let j = index_of(o2, t)->0;
        if j < o1.len() {
            assert(o2.subrange(0, o1.len() as int)[j] == o2[j]);
        }
    }
}

/// Where the first step that fails stands: every step before it succeeds
/// against `o`, and it fails on its own input with `e` or is an `alias` step
/// (whose target, where `strict` holds, is not among the entries).
pub open spec fn failed_at(o: Entries, ev: Seq<StepModel>, i: int, e: ResolveError, strict: bool) -> bool {
    &&& 0 <= i < ev.len()
    &&& eval_steps(o, ev.subrange(0, i)) is Ok
    &&& direct_step_error(o, ev[i], eval_steps(o, ev.subrange(0, i))->Ok_0, e) || (step_alias(ev[i]) is Some && (strict
        ==> !has_key(o, step_alias(ev[i])->0)))
}

/// Resolves the alias of the token `name` to `target`: a cycle or a missing
/// target fails; a target resolved before is read back; otherwise the target
/// is resolved, stored under its own path and name, and its value returned.
fn resolve_alias(
    name: &String,
    target: &String,
    tokens: &TokenSet,
    resolved: &mut TokenSet,
    stack: &mut Vec<String>,
    registry: &TransformRegistry,
    opts: &CssKeyOptions,
) -> (r: Result<TokenValue, ResolveError>)
    ensures
        walk_frame(token_entries(*tokens), token_entries(*old(resolved)), token_entries(*final(resolved)), old(stack)@, final(stack)@, r is Ok),
        r is Ok ==> has_key(token_entries(*final(resolved)), target@)
            && value_at(token_entries(*final(resolved)), target@).value == r->Ok_0@,
        r is Ok && has_key(token_entries(*old(resolved)), target@) ==> token_entries(*final(resolved)) == token_entries(*old(resolved)),
        r is Ok && !has_key(token_entries(*old(resolved)), target@) ==> value_at(token_entries(*final(resolved)), target@).name == target@,
        r is Err && !has_key(token_entries(*old(resolved)), target@) ==> !has_key(token_entries(*final(resolved)), target@),
        frame_pre(token_entries(*tokens), token_entries(*old(resolved)), *opts, old(stack)@, name@)
            && alias_mentions(source_value(token_entries(*tokens), name@), target@) ==> {
            &&& r is Ok ==> walk_inv(token_entries(*tokens), token_entries(*final(resolved)), *opts, old(stack)@)
            &&& r is Err ==> error_ok(token_entries(*tokens), *opts, r->Err_0)
                && chain_ok(token_entries(*tokens), stack_view(old(stack)@), r->Err_0)
        },
        frame_pre(token_entries(*tokens), token_entries(*old(resolved)), *opts, old(stack)@, name@) && r is Err
            ==> !has_key(token_entries(*final(resolved)), target@),
    decreases unvisited(token_entries(*tokens), old(stack)@), 1int,
{
    let ghost s = token_entries(*tokens);
    let ghost o0 = token_entries(*resolved);
    let ghost st0 = stack_view(stack@);
    let ghost pre = frame_pre(s, o0, *opts, stack@, name@) && alias_mentions(source_value(s, name@), target@);
    proof {
        lemma_walk_refl(s, o0, stack@);
    }
    match stack_position(stack, target) {
        Some(j) => {
            proof {
                assert(st0[j as int] == target@);
                if frame_pre(s, o0, *opts, old(stack)@, name@) {
                    assert(!has_key(o0, st0[j as int]));
                }
                if pre {
                    let q = st0.subrange(j as int, st0.len() as int).push(target@);
                    assert forall|i: int| 0 <= i < q.len() - 1 implies alias_edge(s, #[trigger] q[i], q[i + 1]) by {
                        if i < q.len() - 2 {
                            assert(q[i] == st0[j + i] && q[i + 1] == st0[j + i + 1]);
                        } else {
                            assert(q[i] == st0.last());
                        }
                    }
                    assert(is_alias_cycle(s, q));
                    let u = seq![target@];
                    let w = st0 + u;
                    assert(w =~= st0.push(target@));
                    assert forall|i: int| 0 <= i < w.len() - 1 implies alias_edge(s, #[trigger] w[i], w[i + 1]) by {
                        if i < w.len() - 2 {
                            assert(alias_edge(s, st0[i], st0[i + 1]));
                        } else {
                            assert(w[i] == st0.last());
                            assert(q[q.len() - 2] == st0.last());
                        }
                    }
                    assert(w[j as int] == w.last());
                    assert(closes_on_itself(s, w));
                    assert(w.drop_last() =~= st0);
                }
            }
            let m = target.clone();
            proof {
                assert(m@ == arrow_chain(seq![target@]));
            }
            return Err(ResolveError::CycleDetected(m));
        },
        None => {},
    }
    proof {
        assert(!st0.contains(target@));
    }
    let target_token = match token_set_get(tokens, target.as_str()) {
        Some(t) => t,
        None => {
            let m = not_found_message(target, name);
            proof {
                if pre {
                    assert(missing_from(s, name@, target@));
                }
                if frame_pre(s, o0, *opts, old(stack)@, name@) {
                    lemma_index_of(o0, target@);
                    if has_key(o0, target@) {
                        assert(entry_resolved(s, o0, *opts, index_of(o0, target@)->0));
                    }
                }
            }
            return Err(ResolveError::TokenNotFound(m));
        },
    };
    match token_set_get(resolved, target.as_str()) {
        Some(t) => {
            return Ok(copy_value(&t.value));
        },
        None => {},
    }
    let ghost old_stack = stack@;
    stack.push(target.clone());
    let ghost pushed = stack_view(stack@);
    proof {
        lemma_stack_view_push(old_stack, *target);
        lemma_unvisited_push(s, old_stack, *target);
        assert(pushed =~= st0.push(target@));
        if pre {
            assert forall|i: int, k: int| 0 <= i < pushed.len() && 0 <= k < pushed.len() && i != k implies pushed[i] != pushed[k] by {
                if i < st0.len() && k < st0.len() {
                    assert(st0[i] != st0[k]);
                }
            }
            assert forall|i: int| 0 <= i < pushed.len() - 1 implies alias_edge(s, #[trigger] pushed[i], pushed[i + 1]) by {
                if i < st0.len() - 1 {
                    assert(alias_edge(s, st0[i], st0[i + 1]));
                }
            }
            assert(stack_ok(s, o0, pushed));
        }
    }
    let value = resolve_value(target, &target_token.value, tokens, resolved, stack, registry, opts);
    let value = match value {
        Ok(v) => v,
        Err(e) => {
            proof {
                lemma_walk_weaken(s, o0, token_entries(*resolved), old_stack, *target, stack@);
                assert(pushed.contains(target@)) by {
                    assert(pushed[pushed.len() - 1] == target@);
                }
                lemma_not_added(s, o0, token_entries(*resolved), old_stack.push(*target), stack@, false, target@);
            }
            return Err(match e {
                ResolveError::CycleDetected(m) => {
                    let mut chain = target.clone();
                    chain.append(" -> ");
                    chain.append(m.as_str());
                    proof {
                        if pre {
                            let u1 = choose|u: Seq<Seq<char>>| #[trigger] closes_on_itself(s, pushed + u)
                                && (pushed + u).drop_last().no_duplicates() && u.len() >= 1 && m@ == arrow_chain(u);
                            let u = seq![target@] + u1;
                            assert(st0 + u =~= pushed + u1);
                            assert(u.subrange(1, u.len() as int) =~= u1);
                            assert(chain@ =~= arrow_chain(u));
                        }
                    }
                    ResolveError::CycleDetected(chain)
                },
                other => other,
            });
        },
    };
    stack.pop();
    let ghost o1 = token_entries(*resolved);
    proof {
        assert(stack@ =~= old(stack)@);
        assert(pushed.contains(target@)) by {
            assert(pushed[pushed.len() - 1] == target@);
        }
        lemma_not_added(s, o0, o1, old_stack.push(*target), old_stack.push(*target), true, target@);
        lemma_walk_weaken(s, o0, o1, old_stack, *target, old_stack.push(*target));
    }
    let comment = resolved_token_comment(resolved, target_token);
    let stored = Token { name: target.clone(), value: copy_value(&value), comment };
    token_set_insert(resolved, target.clone(), stored);
    proof {
        let o2 = token_entries(*resolved);
        let n = o1.len() as int;
        lemma_push_new(o1, target@, stored@);
        assert(o2 == o1.push((target@, stored@)));
        lemma_index_of(o1, target@);
        lemma_extends_trans(o0, o1, o2);
        assert forall|i: int| o0.len() <= i < o2.len() implies has_key(s, #[trigger] o2[i].0) && !stack_view(stack@).contains(o2[i].0) by {
            if i < n {
                assert(o2[i] == o1[i]);
            }
        }
        assert(stack@.subrange(0, stack@.len() as int) =~= stack@);
        if pre {
            assert forall|i: int| 0 <= i < o2.len() implies entry_resolved(s, o2, *opts, i) by {
                if i < n {
                    assert(o2.subrange(0, i) =~= o1.subrange(0, i));
                    assert(entry_resolved(s, o1, *opts, i));
                } else {
                    assert(o2.subrange(0, i) =~= o1);
                    assert(target_token.value@ == source_value(s, target@));
                }
            }
            assert(keys_unique(o2));
            let st = stack_view(stack@);
            assert forall|i: int| 0 <= i < st.len() implies !has_key(o2, #[trigger] st[i]) by {
                assert(st[i] == pushed[i]);
                assert(pushed[i] != pushed[pushed.len() - 1]);
            }
        }
    }
    Ok(value)
}

/// Resolves the value `val` found in the token `name`.
fn resolve_value(
    name: &String,
    val: &TokenValue,
    tokens: &TokenSet,
    resolved: &mut TokenSet,
    stack: &mut Vec<String>,
    registry: &TransformRegistry,
    opts: &CssKeyOptions,
) -> (r: Result<TokenValue, ResolveError>)
    ensures
        walk_frame(token_entries(*tokens), token_entries(*old(resolved)), token_entries(*final(resolved)), old(stack)@, final(stack)@, r is Ok),
        r is Ok ==> eval(token_entries(*final(resolved)), *opts, val@) == Ok::<ValueModel, ErrorKind>(r->Ok_0@),
        r is Ok && !any_alias(val@) ==> token_entries(*final(resolved)) == token_entries(*old(resolved)),
        r is Ok ==> forall|t: Seq<char>| ref_mentions(val@, t) ==> has_key(token_entries(*tokens), t),
        frame_pre(token_entries(*tokens), token_entries(*old(resolved)), *opts, old(stack)@, name@)
            && within(val@, source_value(token_entries(*tokens), name@)) ==> {
            &&& r is Ok ==> walk_inv(token_entries(*tokens), token_entries(*final(resolved)), *opts, old(stack)@)
            &&& r is Err ==> error_ok(token_entries(*tokens), *opts, r->Err_0)
                && chain_ok(token_entries(*tokens), stack_view(old(stack)@), r->Err_0)
        },
    decreases unvisited(token_entries(*tokens), old(stack)@), 2int, val, 1int,
{
    let ghost s = token_entries(*tokens);
    let ghost o0 = token_entries(*resolved);
    let ghost pre = frame_pre(s, o0, *opts, stack@, name@) && within(val@, source_value(s, name@));
    proof {
        lemma_walk_refl(s, o0, stack@);
    }
    match val {
        TokenValue::Transform(_) => {
            proof {
                lemma_transform_view(*val);
            }
            apply_transform_pipeline(name, val, tokens, resolved, stack, registry, opts)
        },
        TokenValue::Reference(target) => {
            if !token_set_contains(tokens, target.as_str()) {
                let m = not_found_message(target, name);
                proof {
                    assert(ref_mentions(val@, target@));
                    if pre {
                        assert(missing_from(s, name@, target@));
                    }
                }
                return Err(ResolveError::TokenNotFound(m));
            }
            Ok(TokenValue::String(css_var(target.as_str(), opts)))
        },
        TokenValue::Alias(target) => {
            proof {
                assert(alias_mentions(val@, target@));
            }
            let r = resolve_alias(name, target, tokens, resolved, stack, registry, opts);
            proof {
                if r is Ok {
                    assert(any_alias(val@));
                }
            }
            r
        },
        TokenValue::Object(members) => {
            let ghost mm = val@->Object_0;
            let mut out: Vec<(String, TokenValue)> = Vec::new();
            let mut i: usize = 0;
            proof {
                assert(mm.subrange(0, 0) =~= Seq::<(Seq<char>, ValueModel)>::empty());
                assert(Seq::new(0, |k: int| (out@[k].0@, out@[k].1@)) =~= Seq::<(Seq<char>, ValueModel)>::empty());
            }
            while i < members.len()
                invariant
                    *val == TokenValue::Object(*members),
                    mm == val@->Object_0,
                    mm.len() == members.len(),
                    i <= members.len(),
                    out.len() == i,
                    s == token_entries(*tokens),
                    o0 == token_entries(*old(resolved)),
                    pre == (frame_pre(s, o0, *opts, old(stack)@, name@) && within(val@, source_value(s, name@))),
                    stack@ == old(stack)@,
                    walk_frame(s, o0, token_entries(*resolved), old(stack)@, stack@, true),
                    pre ==> frame_pre(s, token_entries(*resolved), *opts, stack@, name@),
                    pre ==> within(val@, source_value(s, name@)),
                    eval_members(token_entries(*resolved), *opts, mm.subrange(0, i as int)) == Ok::<Seq<(Seq<char>, ValueModel)>, ErrorKind>(
                        Seq::new(i as nat, |k: int| (out@[k].0@, out@[k].1@)),
                    ),
                    !any_alias(val@) ==> token_entries(*resolved) == o0,
                    forall|k: int, t: Seq<char>| 0 <= k < i && #[trigger] ref_mentions(mm[k].1, t) ==> has_key(s, t),
                decreases members.len() - i,
            {
                let ghost o1 = token_entries(*resolved);
                proof {
                    assert(mm[i as int].1 == members@[i as int].1@);
                    assert forall|t: Seq<char>| alias_mentions(members@[i as int].1@, t) implies alias_mentions(val@, t) by {
                        assert(alias_mentions(mm[i as int].1, t));
                    }
                    assert forall|t: Seq<char>| ref_mentions(members@[i as int].1@, t) implies ref_mentions(val@, t) by {
                        assert(ref_mentions(mm[i as int].1, t));
                    }
                    if has_transform(members@[i as int].1@) {
                        assert(has_transform(mm[i as int].1));
                    }
                    assert forall|st: Seq<StepModel>| holds_pipeline(members@[i as int].1@, st) implies holds_pipeline(val@, st) by {
                        assert(holds_pipeline(mm[i as int].1, st));
                    }
                    assert(decreases_to!(*val => (*val)->Object_0));
                    assert(decreases_to!(members => members@));
                    assert(decreases_to!(members@ => members@[i as int]));
                    assert(decreases_to!(val => members@[i as int].1));
                }
                let rv = match resolve_value(name, &members[i].1, tokens, resolved, stack, registry, opts) {
                    Ok(rv) => rv,
                    Err(e) => {
                        proof {
                            assert(walk_frame(s, o1, token_entries(*resolved), old(stack)@, stack@, false));
                            assert(walk_frame(s, o0, o1, old(stack)@, old(stack)@, true));
                            lemma_walk_trans(s, o0, o1, token_entries(*resolved), old(stack)@, stack@, false);
                            assert(walk_frame(s, o0, token_entries(*resolved), old(stack)@, stack@, false));
                        }
                        return Err(e);
                    },
                };
                proof {
                    let o2 = token_entries(*resolved);
                    lemma_walk_trans(s, o0, o1, o2, old(stack)@, stack@, true);
                    lemma_members_extends(o1, o2, *opts, mm.subrange(0, i as int));
                    assert(mm.subrange(0, i + 1).subrange(0, i as int) =~= mm.subrange(0, i as int));
                    if !any_alias(val@) {
                        if any_alias(members@[i as int].1@) {
                            let t = choose|t: Seq<char>| alias_mentions(members@[i as int].1@, t);
                            assert(alias_mentions(val@, t));
                        }
                    }
                }
                let ghost out_before = out@;
                let ghost o2 = token_entries(*resolved);
                proof {
                    let prev = Seq::new(i as nat, |k: int| (out_before[k].0@, out_before[k].1@));
                    assert(eval_members(o2, *opts, mm.subrange(0, i as int)) == Ok::<Seq<(Seq<char>, ValueModel)>, ErrorKind>(prev));
                    assert(eval(o2, *opts, mm[i as int].1) == Ok::<ValueModel, ErrorKind>(rv@));
                    let sub = mm.subrange(0, i + 1);
                    assert(sub.subrange(0, i as int) =~= mm.subrange(0, i as int));
                    assert(sub[i as int] == mm[i as int]);
                    assert(eval_members(o2, *opts, sub) == Ok::<Seq<(Seq<char>, ValueModel)>, ErrorKind>(prev.push((mm[i as int].0, rv@))));
                }
                out.push((members[i].0.clone(), rv));
                proof {
                    let prev = Seq::new(i as nat, |k: int| (out_before[k].0@, out_before[k].1@));
                    assert(mm[i as int].0 == members@[i as int].0@);
                    assert(Seq::new((i + 1) as nat, |k: int| (out@[k].0@, out@[k].1@)) =~= prev.push((mm[i as int].0, out@[i as int].1@)));
                }
                i = i + 1;
            }
            let r = TokenValue::Object(out);
            proof {
                assert(val@ == ValueModel::Object(mm));
                assert forall|t: Seq<char>| ref_mentions(val@, t) implies has_key(s, t) by {
                    assert(ref_mentions(ValueModel::Object(mm), t));
                    assert(exists|k: int| 0 <= k < mm.len() && ref_mentions(#[trigger] mm[k].1, t));
                    let k = choose|k: int| 0 <= k < mm.len() && ref_mentions(#[trigger] mm[k].1, t);
                    assert(ref_mentions(mm[k].1, t));
                    assert(0 <= k < members.len());
                }
                assert(mm.subrange(0, mm.len() as int) =~= mm);
                if let ValueModel::Object(a) = r@ {
                    assert(a =~= Seq::new(out.len() as nat, |k: int| (out@[k].0@, out@[k].1@)));
                }
            }
            Ok(r)
        },
        _ => Ok(copy_value(val)),
    }
}

/// Runs the steps of a transform value in order, each on the previous one's
/// output, the first on none; no steps give `Null`. The first step that
/// fails ends the run with its error.
fn apply_transform_pipeline(
    name: &String,
    val: &TokenValue,
    tokens: &TokenSet,
    resolved: &mut TokenSet,
    stack: &mut Vec<String>,
    registry: &TransformRegistry,
    opts: &CssKeyOptions,
) -> (r: Result<TokenValue, ResolveError>)
    ensures
        walk_frame(token_entries(*tokens), token_entries(*old(resolved)), token_entries(*final(resolved)), old(stack)@, final(stack)@, r is Ok),
        r is Ok ==> eval(token_entries(*final(resolved)), *opts, val@) == Ok::<ValueModel, ErrorKind>(r->Ok_0@),
        r is Ok && !any_alias(val@) ==> token_entries(*final(resolved)) == token_entries(*old(resolved)),
        val is Transform && val->Transform_0.steps.len() == 0 ==> r is Ok && r->Ok_0@ == ValueModel::Null
            && token_entries(*final(resolved)) == token_entries(*old(resolved)),
        val is Transform && r is Err ==> exists|i: int| #[trigger] failed_at(
            token_entries(*final(resolved)),
            expr_view(val->Transform_0),
            i,
            r->Err_0,
            value_pre(token_entries(*tokens), token_entries(*old(resolved)), *opts, old(stack)@, name@, val@),
        ),
        val is Transform && frame_pre(token_entries(*tokens), token_entries(*old(resolved)), *opts, old(stack)@, name@)
            && within(val@, source_value(token_entries(*tokens), name@)) ==> {
            &&& r is Ok ==> walk_inv(token_entries(*tokens), token_entries(*final(resolved)), *opts, old(stack)@)
            &&& r is Err ==> error_ok(token_entries(*tokens), *opts, r->Err_0)
                && chain_ok(token_entries(*tokens), stack_view(old(stack)@), r->Err_0)
        },
    decreases unvisited(token_entries(*tokens), old(stack)@), 2int, val, 0int,
{
    let ghost s = token_entries(*tokens);
    let ghost o0 = token_entries(*resolved);
    let ghost pre = frame_pre(s, o0, *opts, stack@, name@) && within(val@, source_value(s, name@));
    proof {
        lemma_walk_refl(s, o0, stack@);
    }
    let expr = match val {
        TokenValue::Transform(e) => e,
        _ => {
            return Err(invalid_transform("not a transform"));
        },
    };
    let ghost ev = expr_view(*expr);
    proof {
        lemma_transform_view(*val);
        assert(has_transform(val@));
    }
    let mut current: Option<TokenValue> = None;
    let mut i: usize = 0;
    proof {
        assert(ev.subrange(0, 0) =~= Seq::<StepModel>::empty());
    }
    while i < expr.steps.len()
        invariant
            *val == TokenValue::Transform(*expr),
            ev == expr_view(*expr),
            val@ == ValueModel::Transform(ev),
            i <= expr.steps.len(),
            s == token_entries(*tokens),
            o0 == token_entries(*old(resolved)),
            pre == (frame_pre(s, o0, *opts, old(stack)@, name@) && within(val@, source_value(s, name@))),
            stack@ == old(stack)@,
            walk_frame(s, o0, token_entries(*resolved), old(stack)@, stack@, true),
            pre ==> frame_pre(s, token_entries(*resolved), *opts, stack@, name@),
            pre ==> within(val@, source_value(s, name@)),
            eval_steps(token_entries(*resolved), ev.subrange(0, i as int)) == Ok::<Option<ValueModel>, ErrorKind>(opt_model(current)),
            !any_alias(val@) ==> token_entries(*resolved) == o0,
        decreases expr.steps.len() - i,
    {
        let ghost o1 = token_entries(*resolved);
        let input = match &current {
            Some(c) => Some(copy_value(c)),
            None => None,
        };
        proof {
            assert(ev[i as int] == step_view(expr.steps@[i as int]));
            assert forall|t: Seq<char>| step_alias(step_view(expr.steps@[i as int])) == Some(t) implies alias_mentions(val@, t) by {
                assert(alias_mentions(val@, t));
            }
            assert(decreases_to!(*val => (*val)->Transform_0));
            assert(decreases_to!((*val)->Transform_0 => expr.steps));
            assert(decreases_to!(expr.steps => expr.steps@));
            assert(decreases_to!(expr.steps@ => expr.steps@[i as int]));
        }
        let out = match apply_transform_step(name, &expr.steps[i], input, tokens, resolved, stack, registry, opts) {
            Ok(out) => out,
            Err(e) => {
                proof {
                    let o2 = token_entries(*resolved);
                    lemma_walk_trans(s, o0, o1, o2, old(stack)@, stack@, false);
                    lemma_steps_extends(o1, o2, ev.subrange(0, i as int));
                    assert(failed_at(o2, ev, i as int, e, pre));
                    assert(pre == value_pre(s, o0, *opts, old(stack)@, name@, val@));
                    assert(ev == expr_view(val->Transform_0));
                    if pre && !error_ok(s, *opts, e) {
                        assert(holds_pipeline(val@, ev));
                        assert(fails_at(s, *opts, e.kind(), name@, ev, i as int, o1));
                    }
                }
                return Err(e);
            },
        };
        proof {
            let o2 = token_entries(*resolved);
            lemma_walk_trans(s, o0, o1, o2, old(stack)@, stack@, true);
            lemma_steps_extends(o1, o2, ev.subrange(0, i as int));
            assert(ev.subrange(0, i + 1).drop_last() =~= ev.subrange(0, i as int));
            if !any_alias(val@) {
                if let Some(t) = step_alias(ev[i as int]) {
                    assert(alias_mentions(val@, t));
                }
            }
        }
        current = Some(out);
        i = i + 1;
    }
    proof {
        assert(ev.subrange(0, ev.len() as int) =~= ev);
    }
    match current {
        Some(v) => Ok(v),
        None => Ok(TokenValue::Null),
    }
}

/// Applies one pipeline step, looked up by name in the registry.
fn apply_transform_step(
    name: &String,
    step: &TransformStep,
    input: Option<TokenValue>,
    tokens: &TokenSet,
    resolved: &mut TokenSet,
    stack: &mut Vec<String>,
    registry: &TransformRegistry,
    opts: &CssKeyOptions,
) -> (r: Result<TokenValue, ResolveError>)
    ensures
        walk_frame(token_entries(*tokens), token_entries(*old(resolved)), token_entries(*final(resolved)), old(stack)@, final(stack)@, r is Ok),
        r is Ok ==> eval_step(token_entries(*final(resolved)), step_view(*step), opt_model(input)) == Ok::<ValueModel, ErrorKind>(r->Ok_0@),
        r is Ok && step_alias(step_view(*step)) is None ==> token_entries(*final(resolved)) == token_entries(*old(resolved)),
        builtin_named(step.kind@) != Some(Builtin::Alias) ==> outcome(r) == eval_step(token_entries(*old(resolved)), step_view(*step), opt_model(input))
            && token_entries(*final(resolved)) == token_entries(*old(resolved)) && final(stack)@ == old(stack)@,
        builtin_named(step.kind@) is None ==> r is Err && r->Err_0.kind() == ErrorKind::InvalidTransform
            && r->Err_0.message() == "unknown transform: "@ + step.kind@,
        r is Err ==> (direct_step_error(token_entries(*old(resolved)), step_view(*step), opt_model(input), r->Err_0)
            && token_entries(*final(resolved)) == token_entries(*old(resolved))) || (step_alias(step_view(*step)) is Some && (
            !has_key(token_entries(*old(resolved)), step_alias(step_view(*step))->0) ==> !has_key(
                token_entries(*final(resolved)),
                step_alias(step_view(*step))->0,
            ))),
        frame_pre(token_entries(*tokens), token_entries(*old(resolved)), *opts, old(stack)@, name@)
            && has_transform(source_value(token_entries(*tokens), name@))
            && (forall|t: Seq<char>| step_alias(step_view(*step)) == Some(t) ==> alias_mentions(source_value(token_entries(*tokens), name@), t)) ==> {
            &&& r is Ok ==> walk_inv(token_entries(*tokens), token_entries(*final(resolved)), *opts, old(stack)@)
            &&& r is Err ==> (error_ok(token_entries(*tokens), *opts, r->Err_0) || direct_step_error(
                token_entries(*old(resolved)),
                step_view(*step),
                opt_model(input),
                r->Err_0,
            )) && chain_ok(token_entries(*tokens), stack_view(old(stack)@), r->Err_0)
        },
        frame_pre(token_entries(*tokens), token_entries(*old(resolved)), *opts, old(stack)@, name@) && r is Err
            && step_alias(step_view(*step)) is Some ==> !has_key(token_entries(*final(resolved)), step_alias(step_view(*step))->0),
    decreases unvisited(token_entries(*tokens), old(stack)@), 2int, step, 1int,
{
    proof {
        assert(step_arg(step_view(*step)) == first_arg(*step));
        lemma_walk_refl(token_entries(*resolved), token_entries(*resolved), stack@);
        lemma_walk_refl(token_entries(*tokens), token_entries(*resolved), stack@);
    }
    match registry.get_builtin(step.kind.as_str()) {
        Some(Builtin::Alias) => builtin_alias(name, step, tokens, resolved, stack, registry, opts),
        Some(b) => apply_numeric(b, input, step),
        None => {
            let mut m = String::from_str("unknown transform: ");
            m.append(step.kind.as_str());
            Err(ResolveError::InvalidTransform(m))
        },
    }
}

/// The `alias` step: the resolved value of the path named by its argument; a
/// missing or non-string argument fails with `InvalidTransform`, changing
/// nothing.
fn builtin_alias(
    name: &String,
    step: &TransformStep,
    tokens: &TokenSet,
    resolved: &mut TokenSet,
    stack: &mut Vec<String>,
    registry: &TransformRegistry,
    opts: &CssKeyOptions,
) -> (r: Result<TokenValue, ResolveError>)
    ensures
        walk_frame(token_entries(*tokens), token_entries(*old(resolved)), token_entries(*final(resolved)), old(stack)@, final(stack)@, r is Ok),
        alias_target(step_arg(step_view(*step))) is None ==> r is Err && r->Err_0.kind() == ErrorKind::InvalidTransform
            && token_entries(*final(resolved)) == token_entries(*old(resolved)) && final(stack)@ == old(stack)@,
        r is Ok ==> alias_target(step_arg(step_view(*step))) is Some && has_key(
            token_entries(*final(resolved)),
            alias_target(step_arg(step_view(*step)))->0,
        ) && value_at(token_entries(*final(resolved)), alias_target(step_arg(step_view(*step)))->0).value == r->Ok_0@,
        r is Err && alias_target(step_arg(step_view(*step))) is Some && !has_key(
            token_entries(*old(resolved)),
            alias_target(step_arg(step_view(*step)))->0,
        ) ==> !has_key(token_entries(*final(resolved)), alias_target(step_arg(step_view(*step)))->0),
        frame_pre(token_entries(*tokens), token_entries(*old(resolved)), *opts, old(stack)@, name@)
            && has_transform(source_value(token_entries(*tokens), name@))
            && builtin_named(step.kind@) == Some(Builtin::Alias)
            && (forall|t: Seq<char>| step_alias(step_view(*step)) == Some(t) ==> alias_mentions(source_value(token_entries(*tokens), name@), t)) ==> {
            &&& r is Ok ==> walk_inv(token_entries(*tokens), token_entries(*final(resolved)), *opts, old(stack)@)
            &&& r is Err ==> (error_ok(token_entries(*tokens), *opts, r->Err_0) || direct_step_error(
                token_entries(*old(resolved)),
                step_view(*step),
                None,
                r->Err_0,
            )) && chain_ok(token_entries(*tokens), stack_view(old(stack)@), r->Err_0)
        },
        frame_pre(token_entries(*tokens), token_entries(*old(resolved)), *opts, old(stack)@, name@) && r is Err
            && alias_target(step_arg(step_view(*step))) is Some ==> !has_key(
            token_entries(*final(resolved)),
            alias_target(step_arg(step_view(*step)))->0,
        ),
    decreases unvisited(token_entries(*tokens), old(stack)@), 2int, step, 0int,
{
    proof {
        assert(step_arg(step_view(*step)) == first_arg(*step));
        lemma_walk_refl(token_entries(*tokens), token_entries(*resolved), stack@);
    }
    let target = if step.args.len() > 0 {
        match &step.args[0] {
            TokenValue::String(s) => s,
            TokenValue::Alias(s) => s,
            _ => {
                return Err(invalid_transform("alias requires string arg"));
            },
        }
    } else {
        return Err(invalid_transform("alias requires string arg"));
    };
    resolve_alias(name, target, tokens, resolved, stack, registry, opts)
}

/// Resolves every token of `tokens`: aliases, references and transform
/// pipelines are replaced by what they stand for. All or nothing: the first
/// error ends the run.
pub fn resolve_with(tokens: &TokenSet, registry: &TransformRegistry, opts: &CssKeyOptions) -> (r: Result<TokenSet, ResolveError>)
    ensures
        resolve_post(token_entries(*tokens), *opts, set_outcome(r)),
        r is Err ==> message_ok(token_entries(*tokens), r->Err_0),
{
    let ghost s = token_entries(*tokens);
    let mut resolved = new_token_set();
    let mut stack: Vec<String> = Vec::new();
    let n = token_set_len(tokens);
    let mut i: usize = 0;
    while i < n
        invariant
            n == s.len(),
            s == token_entries(*tokens),
            i <= n,
            resolved_from(s, token_entries(resolved), *opts),
            forall|j: int| 0 <= j < i ==> has_key(token_entries(resolved), #[trigger] s[j].0),
            keys_unique(s) && !has_any_alias(s) ==> token_entries(resolved).len() == i && forall|j: int|
                0 <= j < i ==> #[trigger] token_entries(resolved)[j].0 == s[j].0,
        decreases n - i,
    {
        let (key, token) = token_set_entry(tokens, i);
        let ghost o0 = token_entries(resolved);
        proof {
            lemma_index_of(s, key@);
            if keys_unique(s) {
                lemma_index_of_unique(s, i as int);
            }
        }
        if token_set_contains(&resolved, key.as_str()) {
            proof {
                if keys_unique(s) && !has_any_alias(s) {
                    lemma_index_of(o0, key@);
                    let j = index_of(o0, key@)->0;
                    assert(o0[j].0 == s[j].0);
                }
            }
            i = i + 1;
            continue;
        }
        proof {
            // the first entry under this key is this one: an earlier one would be resolved
            let j = index_of(s, key@)->0;
            if j < i {
                assert(has_key(o0, s[j].0));
            }
            assert(token@ == value_at(s, key@));
        }
        stack = Vec::new();
        stack.push(key.clone());
        proof {
            assert(stack_view(stack@) =~= seq![key@]);
            assert(stack_view(stack@).no_duplicates());
            assert(within(token.value@, source_value(s, key@)));
            assert(frame_pre(s, o0, *opts, stack@, key@));
        }
        let ghost top = stack_view(stack@);
        let value = match resolve_value(key, &token.value, tokens, &mut resolved, &mut stack, registry, opts) {
            Ok(v) => v,
            Err(e) => {
                return Err(match e {
                    ResolveError::CycleDetected(m) => {
                        let mut chain = key.clone();
                        chain.append(" -> ");
                        chain.append(m.as_str());
                        proof {
                            let u1 = choose|u: Seq<Seq<char>>| #[trigger] closes_on_itself(s, top + u)
                                && (top + u).drop_last().no_duplicates() && u.len() >= 1 && m@ == arrow_chain(u);
                            let q = top + u1;
                            assert(q.subrange(1, q.len() as int) =~= u1);
                            assert(chain@ =~= arrow_chain(q));
                            assert(q[0] == s[i as int].0);
                            assert forall|j: int| 0 <= j < i implies !reaches_cycle(s, #[trigger] s[j].0) by {
                                assert(has_key(o0, s[j].0));
                                assert forall|q2: Seq<Seq<char>>| q2.len() > 0 && q2[0] == s[j].0 implies !closes_on_itself(s, q2) by {
                                    lemma_resolved_reaches_no_cycle(s, o0, *opts, q2);
                                }
                            }
                            assert(cycle_from(s, q, i as int));
                        }
                        ResolveError::CycleDetected(chain)
                    },
                    other => other,
                });
            },
        };
        let ghost o1 = token_entries(resolved);
        proof {
            assert(stack_view(stack@)[0] == key@);
            assert(!has_key(o1, key@));
            if keys_unique(s) && !has_any_alias(s) {
                if any_alias(token.value@) {
                    let t = choose|t: Seq<char>| alias_mentions(token.value@, t);
                    assert(alias_mentions(source_value(s, key@), t));
                }
            }
        }
        let comment = resolved_token_comment(&resolved, token);
        let stored = Token { name: key.clone(), value, comment };
        token_set_insert(&mut resolved, key.clone(), stored);
        proof {
            let o2 = token_entries(resolved);
            let m = o1.len() as int;
            lemma_push_new(o1, key@, stored@);
            assert(o2 == o1.push((key@, stored@)));
            lemma_index_of(o1, key@);
            assert forall|j: int| 0 <= j < o2.len() implies entry_resolved(s, o2, *opts, j) by {
                if j < m {
                    assert(o2.subrange(0, j) =~= o1.subrange(0, j));
                    assert(entry_resolved(s, o1, *opts, j));
                } else {
                    assert(o2.subrange(0, j) =~= o1);
                }
            }
            assert(keys_unique(o2));
            assert forall|j: int| 0 <= j < i + 1 implies has_key(o2, #[trigger] s[j].0) by {
                if j < i {
                    lemma_extends_lookup(o0, o1, s[j].0);
                    lemma_extends_lookup(o1, o2, s[j].0);
                }
            }
        }
        i = i + 1;
    }
    proof {
        let o = token_entries(resolved);
        assert forall|k: Seq<char>| has_key(o, k) <==> has_key(s, k) by {
            if has_key(s, k) {
                lemma_index_of(s, k);
                let j = index_of(s, k)->0;
                assert(has_key(o, s[j].0));
            }
            if has_key(o, k) {
                lemma_index_of(o, k);
                let j = index_of(o, k)->0;
                assert(entry_resolved(s, o, *opts, j));
            }
        }
        lemma_resolved_acyclic(s, o, *opts);
        assert forall|k: Seq<char>, t: Seq<char>|
            has_key(s, k) && (alias_mentions(source_value(s, k), t) || ref_mentions(source_value(s, k), t))
            implies has_key(s, t) by {
            lemma_index_of(o, k);
            let j = index_of(o, k)->0;
            assert(entry_resolved(s, o, *opts, j));
            if alias_mentions(source_value(s, k), t) {
                let prev = o.subrange(0, j);
                lemma_eval_alias_found(prev, *opts, source_value(s, k), t);
                assert(o.subrange(0, prev.len() as int) =~= prev);
                lemma_extends_lookup(prev, o, t);
            }
        }
    }
    Ok(resolved)
}

/// Resolves with the default registry and the default naming options.
pub fn resolve_tokens(tokens: &TokenSet) -> (r: Result<TokenSet, ResolveError>)
    ensures
        exists|opts: CssKeyOptions|
            opts.prefix is None && opts.separator == '-' && opts.lowercase && resolve_post(
                token_entries(*tokens),
                opts,
                set_outcome(r),
            ),
        r is Err ==> message_ok(token_entries(*tokens), r->Err_0),
{
    let registry = TransformRegistry::default();
    let opts = CssKeyOptions::default();
    resolve_with(tokens, &registry, &opts)
}

/// Resolves with the default registry; references are named with `opts`.
pub fn resolve_tokens_with_options(tokens: &TokenSet, opts: &CssKeyOptions) -> (r: Result<TokenSet, ResolveError>)
    ensures
        resolve_post(token_entries(*tokens), *opts, set_outcome(r)),
        r is Err ==> message_ok(token_entries(*tokens), r->Err_0),
{
    let registry = TransformRegistry::default();
    resolve_with(tokens, &registry, opts)
}

/// Resolves with the given registry and the default naming options.
pub fn resolve_tokens_with_registry(tokens: &TokenSet, registry: &TransformRegistry) -> (r: Result<TokenSet, ResolveError>)
    ensures
        exists|opts: CssKeyOptions|
            opts.prefix is None && opts.separator == '-' && opts.lowercase && resolve_post(
                token_entries(*tokens),
                opts,
                set_outcome(r),
            ),
        r is Err ==> message_ok(token_entries(*tokens), r->Err_0),
{
    let opts = CssKeyOptions::default();
    resolve_with(tokens, registry, &opts)
}

} // verus!
