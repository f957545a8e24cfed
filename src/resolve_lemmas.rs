use vstd::prelude::*;
use crate::css_var::CssKeyOptions;
use crate::resolve_spec::{
    alias_edge, alias_mentions, closes_on_itself, entry_resolved, eval, eval_members, eval_steps, has_alias_cycle,
    is_alias_cycle, resolved_from, source_value, step_alias, step_arg, Entries,
};
use crate::tokenset::{has_key, index_of, keys_unique, value_at};
use crate::transform::alias_target;
use crate::value::{StepModel, ValueModel};

verus! {

/// `o2` keeps the entries of `o1`, in place, and may add more after them.
pub open spec fn extends<V>(o1: Seq<(Seq<char>, V)>, o2: Seq<(Seq<char>, V)>) -> bool {
    o1.len() <= o2.len() && o2.subrange(0, o1.len() as int) == o1
}

pub proof fn lemma_index_of<V>(e: Seq<(Seq<char>, V)>, k: Seq<char>)
    ensures
        match index_of(e, k) {
            Some(i) => 0 <= i < e.len() && e[i].0 == k && forall|j: int| 0 <= j < i ==> e[j].0 != k,
            None => forall|j: int| 0 <= j < e.len() ==> e[j].0 != k,
        },
    decreases e.len(),
{
    if e.len() > 0 {
        let d = e.drop_last();
        lemma_index_of(d, k);
        assert(forall|j: int| 0 <= j < d.len() ==> d[j] == e[j]);
    }
}

/// In a sequence with unique keys, the entry at `i` is the one found for its key.
pub proof fn lemma_index_of_unique<V>(e: Seq<(Seq<char>, V)>, i: int)
    requires
        keys_unique(e),
        0 <= i < e.len(),
    ensures
        index_of(e, e[i].0) == Some(i),
{
    lemma_index_of(e, e[i].0);
}

/// Appending a new key keeps every lookup and finds the new key last.
pub proof fn lemma_push_new<V>(e: Seq<(Seq<char>, V)>, k: Seq<char>, v: V)
    requires
        !has_key(e, k),
    ensures
        index_of(e.push((k, v)), k) == Some(e.len() as int),
        forall|x: Seq<char>| x != k ==> index_of(#[trigger] e.push((k, v)), x) == index_of(e, x),
        extends(e, e.push((k, v))),
{
    assert(e.push((k, v)).drop_last() =~= e);
    assert(e.push((k, v)).subrange(0, e.len() as int) =~= e);
}

/// Lookups of keys that `o1` holds find the same entry in an extension.
pub proof fn lemma_extends_lookup<V>(o1: Seq<(Seq<char>, V)>, o2: Seq<(Seq<char>, V)>, k: Seq<char>)
    requires
        extends(o1, o2),
        has_key(o1, k),
    ensures
        index_of(o2, k) == index_of(o1, k),
        has_key(o2, k),
        value_at(o2, k) == value_at(o1, k),
    decreases o2.len(),
{
    if o2.len() == o1.len() {
        assert(o2 =~= o1);
    } else {
        assert(o2.drop_last().subrange(0, o1.len() as int) =~= o2.subrange(0, o1.len() as int));
        lemma_extends_lookup(o1, o2.drop_last(), k);
        lemma_index_of(o1, k);
        lemma_index_of(o2.drop_last(), k);
    }
}

pub proof fn lemma_extends_refl<V>(a: Seq<(Seq<char>, V)>)
    ensures
        extends(a, a),
{
    assert(a.subrange(0, a.len() as int) =~= a);
}

pub proof fn lemma_extends_trans<V>(a: Seq<(Seq<char>, V)>, b: Seq<(Seq<char>, V)>, c: Seq<(Seq<char>, V)>)
    requires
        extends(a, b),
        extends(b, c),
    ensures
        extends(a, c),
{
    assert(c.subrange(0, a.len() as int) =~= b.subrange(0, a.len() as int));
}

pub proof fn lemma_eval_extends(o1: Entries, o2: Entries, opts: CssKeyOptions, v: ValueModel)
    requires
        extends(o1, o2),
        eval(o1, opts, v) is Ok,
    ensures
        eval(o2, opts, v) == eval(o1, opts, v),
    decreases v,
{
    match v {
        ValueModel::Alias(t) => {
            lemma_extends_lookup(o1, o2, t);
        },
        ValueModel::Object(m) => {
            lemma_members_extends(o1, o2, opts, m);
        },
        ValueModel::Transform(steps) => {
            lemma_steps_extends(o1, o2, steps);
        },
        _ => {},
    }
}

pub proof fn lemma_members_extends(o1: Entries, o2: Entries, opts: CssKeyOptions, m: Seq<(Seq<char>, ValueModel)>)
    requires
        extends(o1, o2),
        eval_members(o1, opts, m) is Ok,
    ensures
        eval_members(o2, opts, m) == eval_members(o1, opts, m),
    decreases m,
{
    if m.len() > 0 {
        lemma_members_extends(o1, o2, opts, m.subrange(0, m.len() - 1));
        lemma_eval_extends(o1, o2, opts, m[m.len() - 1].1);
    }
}

pub proof fn lemma_steps_extends(o1: Entries, o2: Entries, steps: Seq<StepModel>)
    requires
        extends(o1, o2),
        eval_steps(o1, steps) is Ok,
    ensures
        eval_steps(o2, steps) == eval_steps(o1, steps),
    decreases steps.len(),
{
    if steps.len() > 0 {
        lemma_steps_extends(o1, o2, steps.drop_last());
        let step = steps.last();
        match alias_target(step_arg(step)) {
            Some(t) => {
                if has_key(o1, t) {
                    lemma_extends_lookup(o1, o2, t);
                }
            },
            None => {},
        }
    }
}

/// A value that resolves has every path it aliases among the entries read.
pub proof fn lemma_eval_alias_found(o: Entries, opts: CssKeyOptions, v: ValueModel, t: Seq<char>)
    requires
        eval(o, opts, v) is Ok,
        alias_mentions(v, t),
    ensures
        has_key(o, t),
    decreases v,
{
    match v {
        ValueModel::Object(m) => {
            let i = choose|i: int| 0 <= i < m.len() && alias_mentions(#[trigger] m[i].1, t);
            lemma_members_alias_found(o, opts, m, i, t);
        },
        ValueModel::Transform(steps) => {
            let i = choose|i: int| 0 <= i < steps.len() && step_alias(#[trigger] steps[i]) == Some(t);
            lemma_steps_alias_found(o, steps, i, t);
        },
        _ => {},
    }
}

pub proof fn lemma_members_alias_found(o: Entries, opts: CssKeyOptions, m: Seq<(Seq<char>, ValueModel)>, i: int, t: Seq<char>)
    requires
        eval_members(o, opts, m) is Ok,
        0 <= i < m.len(),
        alias_mentions(m[i].1, t),
    ensures
        has_key(o, t),
    decreases m, 0int,
{
    let init = m.subrange(0, m.len() - 1);
    if i == m.len() - 1 {
        lemma_eval_alias_found(o, opts, m[i].1, t);
    } else {
        assert(init[i] == m[i]);
        lemma_members_alias_found(o, opts, init, i, t);
    }
}

pub proof fn lemma_steps_alias_found(o: Entries, steps: Seq<StepModel>, i: int, t: Seq<char>)
    requires
        eval_steps(o, steps) is Ok,
        0 <= i < steps.len(),
        step_alias(steps[i]) == Some(t),
    ensures
        has_key(o, t),
    decreases steps.len(),
{
    if i < steps.len() - 1 {
        assert(steps.drop_last()[i] == steps[i]);
        lemma_steps_alias_found(o, steps.drop_last(), i, t);
    }
}

/// Along an alias edge between resolved entries, the target comes first.
pub proof fn lemma_edge_goes_back(s: Entries, o: Entries, opts: CssKeyOptions, a: Seq<char>, b: Seq<char>)
    requires
        resolved_from(s, o, opts),
        has_key(o, a),
        alias_edge(s, a, b),
    ensures
        has_key(o, b),
        index_of(o, b)->0 < index_of(o, a)->0,
{
    lemma_index_of(o, a);
    let p = index_of(o, a)->0;
    assert(entry_resolved(s, o, opts, p));
    let prev = o.subrange(0, p);
    lemma_eval_alias_found(prev, opts, source_value(s, a), b);
    lemma_index_of(prev, b);
    let j = index_of(prev, b)->0;
    assert(o[j] == prev[j]);
    lemma_index_of(o, b);
}

proof fn lemma_descends(o: Entries, q: Seq<Seq<char>>, k: int)
    requires
        0 <= k < q.len(),
        forall|i: int| 0 <= i < q.len() - 1 ==> has_key(o, #[trigger] q[i]) && has_key(o, q[i + 1])
            && index_of(o, q[i + 1])->0 < index_of(o, q[i])->0,
    ensures
        index_of(o, q[k])->0 <= index_of(o, q[0])->0 - k,
    decreases k,
{
    if k > 0 {
        lemma_descends(o, q, k - 1);
        assert(has_key(o, q[k - 1]));
    }
}

/// A set resolved in full, each entry from the entries before it, has no
/// alias cycle.
pub proof fn lemma_resolved_acyclic(s: Entries, o: Entries, opts: CssKeyOptions)
    requires
        resolved_from(s, o, opts),
        forall|k: Seq<char>| has_key(o, k) <==> has_key(s, k),
    ensures
        !has_alias_cycle(s),
{
    if has_alias_cycle(s) {
        let q = choose|q: Seq<Seq<char>>| is_alias_cycle(s, q);
        let n = q.len();
        assert(alias_edge(s, q[0], q[1]));
        assert forall|i: int| 0 <= i < n - 1 implies has_key(o, #[trigger] q[i]) && has_key(o, q[i + 1])
            && index_of(o, q[i + 1])->0 < index_of(o, q[i])->0 by {
            assert(alias_edge(s, q[i], q[i + 1]));
            lemma_edge_goes_back(s, o, opts, q[i], q[i + 1]);
        }
        lemma_descends(o, q, n - 1);
        assert(q[n - 1] == q[0]);
    }
}

proof fn lemma_walk_descends(s: Entries, o: Entries, opts: CssKeyOptions, q: Seq<Seq<char>>, k: int)
    requires
        resolved_from(s, o, opts),
        0 <= k < q.len(),
        has_key(o, q[0]),
        forall|i: int| 0 <= i < q.len() - 1 ==> alias_edge(s, #[trigger] q[i], q[i + 1]),
    ensures
        has_key(o, q[k]),
        forall|i: int| 0 <= i < k ==> index_of(o, q[k])->0 < index_of(o, #[trigger] q[i])->0,
    decreases k,
{
    if k > 0 {
        lemma_walk_descends(s, o, opts, q, k - 1);
        assert(alias_edge(s, q[k - 1], q[k]));
        lemma_edge_goes_back(s, o, opts, q[k - 1], q[k]);
    }
}

/// No walk along alias edges from a resolved path comes back on itself.
pub proof fn lemma_resolved_reaches_no_cycle(s: Entries, o: Entries, opts: CssKeyOptions, q: Seq<Seq<char>>)
    requires
        resolved_from(s, o, opts),
        q.len() > 0,
        has_key(o, q[0]),
    ensures
        !closes_on_itself(s, q),
{
    if closes_on_itself(s, q) {
        let n = q.len() as int;
        lemma_walk_descends(s, o, opts, q, n - 1);
        let j = choose|j: int| 0 <= j < q.len() - 1 && #[trigger] q[j] == q.last();
        assert(q[j] == q[n - 1]);
    }
}

} // verus!
