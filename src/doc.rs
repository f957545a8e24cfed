use vstd::prelude::*;
use vstd::string::*;
use crate::num::{nat_text, Num};
use crate::output::insert_all;
use crate::text::same_text;
use crate::tokenset::{new_token_set, token_entries, token_set_insert, TokenSet};
use crate::value::{StepModel, Token, TokenModel, TokenValue, TransformExpr, TransformStep, ValueModel};

verus! {

/// A parsed JSON document, held as plain values.
#[derive(Debug, PartialEq)]
pub enum Doc {
    Null,
    Bool(bool),
    Number(Num),
    Str(String),
    Array(Vec<Doc>),
    /// Members in document order.
    Object(Vec<(String, Doc)>),
}

/// The model of a `Doc`.
pub enum DocModel {
    Null,
    Bool(bool),
    Number(Num),
    Str(Seq<char>),
    Array(Seq<DocModel>),
    Object(Seq<(Seq<char>, DocModel)>),
}

impl Doc {
    pub open spec fn view(&self) -> DocModel
        decreases self,
    {
        match self {
            Doc::Null => DocModel::Null,
            Doc::Bool(b) => DocModel::Bool(*b),
            Doc::Number(n) => DocModel::Number(*n),
            Doc::Str(s) => DocModel::Str(s@),
            Doc::Array(a) => DocModel::Array(
                Seq::new(
                    a.len() as nat,
                    |i: int|
                        if 0 <= i < a.len() {
                            a@[i].view()
                        } else {
                            DocModel::Null
                        },
                ),
            ),
            Doc::Object(m) => DocModel::Object(
                Seq::new(
                    m.len() as nat,
                    |i: int|
                        if 0 <= i < m.len() {
                            (m@[i].0@, m@[i].1.view())
                        } else {
                            (Seq::empty(), DocModel::Null)
                        },
                ),
            ),
        }
    }
}

/// The position of the first member named `k`, if any.
pub open spec fn field_index(m: Seq<(Seq<char>, DocModel)>, k: Seq<char>) -> Option<int>
    decreases m.len(),
{
    if m.len() == 0 {
        None
    } else if m[0].0 == k {
        Some(0)
    } else {
        match field_index(m.subrange(1, m.len() as int), k) {
            Some(j) => Some(j + 1),
            None => None,
        }
    }
}

/// The value of the first member named `k`, if any.
pub open spec fn field(m: Seq<(Seq<char>, DocModel)>, k: Seq<char>) -> Option<DocModel> {
    match field_index(m, k) {
        Some(i) => if 0 <= i < m.len() {
            Some(m[i].1)
        } else {
            None
        },
        None => None,
    }
}

/// An object of the shape `{"type": "dimension", "value": <number>, "unit": <string>}`.
pub open spec fn dimension_of(m: Seq<(Seq<char>, DocModel)>) -> Option<(Num, Seq<char>)> {
    match (field(m, "type"@), field(m, "value"@), field(m, "unit"@)) {
        (Some(DocModel::Str(t)), Some(DocModel::Number(n)), Some(DocModel::Str(u))) => if t == "dimension"@ {
            Some((n, u))
        } else {
            None
        },
        _ => None,
    }
}

/// The token value a document stands for. An object is read, in this order
/// of priority, as an alias (`{"alias": path}`), a reference
/// (`{"reference": path}`), a dimension, a transform (`{"steps": [...]}`),
/// or else as a structured value; an array becomes an object keyed by
/// position. `None` where a shape is recognized but malformed.
pub open spec fn decode(d: DocModel) -> Option<ValueModel>
    decreases d,
{
    match d {
        DocModel::Null => Some(ValueModel::Null),
        DocModel::Bool(b) => Some(ValueModel::Bool(b)),
        DocModel::Number(n) => Some(ValueModel::Number(n)),
        DocModel::Str(s) => Some(ValueModel::Str(s)),
        DocModel::Array(a) => match decode_items(a) {
            Some(r) => Some(ValueModel::Object(r)),
            None => None,
        },
        DocModel::Object(m) => if field(m, "alias"@) is Some {
            match field(m, "alias"@) {
                Some(DocModel::Str(s)) => Some(ValueModel::Alias(s)),
                _ => None,
            }
        } else if field(m, "reference"@) is Some {
            match field(m, "reference"@) {
                Some(DocModel::Str(s)) => Some(ValueModel::Reference(s)),
                _ => None,
            }
        } else if dimension_of(m) is Some {
            match dimension_of(m) {
                Some((n, u)) => Some(ValueModel::Dimension(n, u)),
                None => None,
            }
        } else if field(m, "steps"@) is Some {
            match field_index(m, "steps"@) {
                Some(i) => if 0 <= i < m.len() {
                    match m[i].1 {
                        DocModel::Array(items) => match decode_steps(items) {
                            Some(steps) => Some(ValueModel::Transform(steps)),
                            None => None,
                        },
                        _ => None,
                    }
                } else {
                    None
                },
                None => None,
            }
        } else {
            match decode_members(m) {
                Some(r) => Some(ValueModel::Object(r)),
                None => None,
            }
        },
    }
}

/// Array items decoded, keyed by their positions `"0"`, `"1"`, ...
pub open spec fn decode_items(a: Seq<DocModel>) -> Option<Seq<(Seq<char>, ValueModel)>>
    decreases a,
{
    if a.len() == 0 {
        Some(Seq::empty())
    } else {
        match (decode_items(a.subrange(0, a.len() - 1)), decode(a[a.len() - 1])) {
            (Some(r), Some(v)) => Some(r.push((nat_text((a.len() - 1) as nat), v))),
            _ => None,
        }
    }
}

/// Object members decoded, keys kept.
pub open spec fn decode_members(m: Seq<(Seq<char>, DocModel)>) -> Option<Seq<(Seq<char>, ValueModel)>>
    decreases m,
{
    if m.len() == 0 {
        Some(Seq::empty())
    } else {
        match (decode_members(m.subrange(0, m.len() - 1)), decode(m[m.len() - 1].1)) {
            (Some(r), Some(v)) => Some(r.push((m[m.len() - 1].0, v))),
            _ => None,
        }
    }
}

/// Array items decoded in order, without keys.
pub open spec fn decode_list(a: Seq<DocModel>) -> Option<Seq<ValueModel>>
    decreases a,
{
    if a.len() == 0 {
        Some(Seq::empty())
    } else {
        match (decode_list(a.subrange(0, a.len() - 1)), decode(a[a.len() - 1])) {
            (Some(r), Some(v)) => Some(r.push(v)),
            _ => None,
        }
    }
}

/// A step: an object with a string `"type"` and an optional `"args"` array.
pub open spec fn decode_step(d: DocModel) -> Option<StepModel>
    decreases d,
{
    match d {
        DocModel::Object(m) => match field(m, "type"@) {
            Some(DocModel::Str(k)) => match field_index(m, "args"@) {
                None => Some(StepModel { kind: k, args: Seq::empty() }),
                Some(i) => if 0 <= i < m.len() {
                    match m[i].1 {
                        DocModel::Array(a) => match decode_list(a) {
                            Some(args) => Some(StepModel { kind: k, args }),
                            None => None,
                        },
                        _ => None,
                    }
                } else {
                    None
                },
            },
            _ => None,
        },
        _ => None,
    }
}

pub open spec fn decode_steps(a: Seq<DocModel>) -> Option<Seq<StepModel>>
    decreases a,
{
    if a.len() == 0 {
        Some(Seq::empty())
    } else {
        match (decode_steps(a.subrange(0, a.len() - 1)), decode_step(a[a.len() - 1])) {
            (Some(r), Some(s)) => Some(r.push(s)),
            _ => None,
        }
    }
}

pub proof fn lemma_field_index(m: Seq<(Seq<char>, DocModel)>, k: Seq<char>)
    ensures
        match field_index(m, k) {
            Some(i) => 0 <= i < m.len() && m[i].0 == k && forall|j: int| 0 <= j < i ==> m[j].0 != k,
            None => forall|j: int| 0 <= j < m.len() ==> m[j].0 != k,
        },
    decreases m.len(),
{
    if m.len() > 0 && m[0].0 != k {
        let rest = m.subrange(1, m.len() as int);
        lemma_field_index(rest, k);
        assert forall|j: int| 1 <= j < m.len() implies m[j] == rest[j - 1] by {}
    }
}

/// Where the first member named `k` stands, if any.
fn find_field(m: &Vec<(String, Doc)>, k: &str) -> (r: Option<usize>)
    ensures
        match r {
            Some(i) => i < m.len() && m@[i as int].0@ == k@ && forall|j: int| 0 <= j < i ==> m@[j].0@ != k@,
            None => forall|j: int| 0 <= j < m.len() ==> m@[j].0@ != k@,
        },
{
    let mut i: usize = 0;
    while i < m.len()
        invariant
            i <= m.len(),
            forall|j: int| 0 <= j < i ==> m@[j].0@ != k@,
        decreases m.len() - i,
    {
        if same_text(m[i].0.as_str(), k) {
            return Some(i);
        }
        i = i + 1;
    }
    None
}

proof fn lemma_find_matches(d: Doc, k: Seq<char>, r: Option<usize>)
    requires
        d is Object,
        match r {
            Some(i) => i < d->Object_0.len() && d->Object_0@[i as int].0@ == k && forall|j: int| 0 <= j < i ==> d->Object_0@[j].0@ != k,
            None => forall|j: int| 0 <= j < d->Object_0.len() ==> d->Object_0@[j].0@ != k,
        },
    ensures
        match r {
            Some(i) => field_index(d@->Object_0, k) == Some(i as int),
            None => field_index(d@->Object_0, k) is None,
        },
{
    let mv = d@->Object_0;
    lemma_field_index(mv, k);
    match field_index(mv, k) {
        Some(i) => {
            if let Some(j) = r {
                assert(mv[j as int].0 == k);
                assert(mv[i].0 == k);
            }
        },
        None => {
            if let Some(j) = r {
                assert(mv[j as int].0 == k);
            }
        },
    }
}

pub open spec fn opt_value_model(r: Option<TokenValue>) -> Option<ValueModel> {
    match r {
        Some(v) => Some(v@),
        None => None,
    }
}

pub open spec fn opt_step_model(r: Option<TransformStep>) -> Option<StepModel> {
    match r {
        Some(s) => Some(crate::resolver::step_view(s)),
        None => None,
    }
}

/// The token value a document stands for (see `decode`).
pub fn decode_value(d: &Doc) -> (r: Option<TokenValue>)
    ensures
        opt_value_model(r) == decode(d@),
    decreases d, 1int,
{
    match d {
        Doc::Null => Some(TokenValue::Null),
        Doc::Bool(b) => Some(TokenValue::Bool(*b)),
        Doc::Number(n) => Some(TokenValue::Number(*n)),
        Doc::Str(s) => Some(TokenValue::String(s.clone())),
        Doc::Array(a) => {
            let ghost av = d@->Array_0;
            let mut out: Vec<(String, TokenValue)> = Vec::new();
            let mut i: usize = 0;
            assert(Seq::new(0, |k: int| (out@[k].0@, out@[k].1@)) =~= Seq::<(Seq<char>, ValueModel)>::empty());
            assert(av.subrange(0, 0) =~= Seq::<DocModel>::empty());
            while i < a.len()
                invariant
                    *d == Doc::Array(*a),
                    av == d@->Array_0,
                    av.len() == a.len(),
                    i <= a.len(),
                    out.len() == i,
                    decode_items(av.subrange(0, i as int)) == Some(Seq::new(i as nat, |k: int| (out@[k].0@, out@[k].1@))),
                decreases a.len() - i,
            {
                proof {
                    assert(decreases_to!(*d => (*d)->Array_0));
                    assert(decreases_to!(a => a@));
                    assert(decreases_to!(a@ => a@[i as int]));
                    assert(av[i as int] == a@[i as int]@);
                }
                let v = match decode_value(&a[i]) {
                    Some(v) => v,
                    None => {
                        proof {
                            let sub = av.subrange(0, i + 1);
                            assert(sub.subrange(0, i as int) =~= av.subrange(0, i as int));
                            assert(decode_items(sub) is None);
                            lemma_items_fail(av, i as int + 1);
                        }
                        return None;
                    },
                };
                let mut key = String::new();
                crate::num::push_nat(&mut key, i as u64);
                let ghost before = out@;
                out.push((key, v));
                proof {
                    let sub = av.subrange(0, i + 1);
                    assert(sub.subrange(0, i as int) =~= av.subrange(0, i as int));
                    assert(sub[i as int] == av[i as int]);
                    let prev = Seq::new(i as nat, |k: int| (before[k].0@, before[k].1@));
                    assert(Seq::new((i + 1) as nat, |k: int| (out@[k].0@, out@[k].1@)) =~= prev.push((nat_text(i as nat), out@[i as int].1@)));
                }
                i = i + 1;
            }
            assert(av.subrange(0, av.len() as int) =~= av);
            let r = TokenValue::Object(out);
            proof {
                if let ValueModel::Object(x) = r@ {
                    assert(x =~= Seq::new(out.len() as nat, |k: int| (out@[k].0@, out@[k].1@)));
                }
            }
            Some(r)
        },
        Doc::Object(m) => decode_object(d),
    }
}

/// A failure among the first `n` items fails the whole list.
proof fn lemma_items_fail(a: Seq<DocModel>, n: int)
    requires
        0 <= n <= a.len(),
        decode_items(a.subrange(0, n)) is None,
    ensures
        decode_items(a) is None,
    decreases a.len() - n,
{
    if n < a.len() {
        let sub = a.subrange(0, n + 1);
        assert(sub.subrange(0, n) =~= a.subrange(0, n));
        lemma_items_fail(a, n + 1);
    } else {
        assert(a.subrange(0, n) =~= a);
    }
}

proof fn lemma_members_fail(a: Seq<(Seq<char>, DocModel)>, n: int)
    requires
        0 <= n <= a.len(),
        decode_members(a.subrange(0, n)) is None,
    ensures
        decode_members(a) is None,
    decreases a.len() - n,
{
    if n < a.len() {
        let sub = a.subrange(0, n + 1);
        assert(sub.subrange(0, n) =~= a.subrange(0, n));
        lemma_members_fail(a, n + 1);
    } else {
        assert(a.subrange(0, n) =~= a);
    }
}

proof fn lemma_list_fail(a: Seq<DocModel>, n: int)
    requires
        0 <= n <= a.len(),
        decode_list(a.subrange(0, n)) is None,
    ensures
        decode_list(a) is None,
    decreases a.len() - n,
{
    if n < a.len() {
        let sub = a.subrange(0, n + 1);
        assert(sub.subrange(0, n) =~= a.subrange(0, n));
        lemma_list_fail(a, n + 1);
    } else {
        assert(a.subrange(0, n) =~= a);
    }
}

proof fn lemma_steps_fail(a: Seq<DocModel>, n: int)
    requires
        0 <= n <= a.len(),
        decode_steps(a.subrange(0, n)) is None,
    ensures
        decode_steps(a) is None,
    decreases a.len() - n,
{
    if n < a.len() {
        let sub = a.subrange(0, n + 1);
        assert(sub.subrange(0, n) =~= a.subrange(0, n));
        lemma_steps_fail(a, n + 1);
    } else {
        assert(a.subrange(0, n) =~= a);
    }
}

/// A pipeline step read from a document (see `decode_step`).
pub fn decode_transform_step(d: &Doc) -> (r: Option<TransformStep>)
    ensures
        opt_step_model(r) == decode_step(d@),
    decreases d, 1int,
{
    let m = match d {
        Doc::Object(m) => m,
        _ => {
            return None;
        },
    };
    let ghost mv = d@->Object_0;
    let ft = find_field(m, "type");
    proof {
        lemma_find_matches(*d, "type"@, ft);
    }
    let kind = match ft {
        Some(i) => match &m[i].1 {
            Doc::Str(k) => k.clone(),
            _ => {
                proof {
                    assert(mv[i as int].1 == m@[i as int].1@);
                }
                return None;
            },
        },
        None => {
            return None;
        },
    };
    proof {
        assert(mv[ft->0 as int].1 == m@[ft->0 as int].1@);
    }
    let fa = find_field(m, "args");
    proof {
        lemma_find_matches(*d, "args"@, fa);
    }
    let i = match fa {
        Some(i) => i,
        None => {
            let r = TransformStep { kind, args: Vec::new() };
            assert(crate::resolver::step_view(r).args =~= Seq::<ValueModel>::empty());
            return Some(r);
        },
    };
    proof {
        assert(mv[i as int].1 == m@[i as int].1@);
        assert(decreases_to!(*d => (*d)->Object_0));
        assert(decreases_to!(m => m@));
        assert(decreases_to!(m@ => m@[i as int]));
        assert(decreases_to!(m@[i as int] => m@[i as int].1));
    }
    let a = match &m[i].1 {
        Doc::Array(a) => a,
        _ => {
            return None;
        },
    };
    let ghost av = m@[i as int].1@->Array_0;
    let mut args: Vec<TokenValue> = Vec::new();
    let mut j: usize = 0;
    assert(av.subrange(0, 0) =~= Seq::<DocModel>::empty());
    assert(Seq::new(0, |k: int| args@[k]@) =~= Seq::<ValueModel>::empty());
    while j < a.len()
        invariant
            m@[i as int].1 == Doc::Array(*a),
            i < m.len(),
            *d == Doc::Object(*m),
            av == m@[i as int].1@->Array_0,
            av.len() == a.len(),
            j <= a.len(),
            args.len() == j,
            decode_list(av.subrange(0, j as int)) == Some(Seq::new(j as nat, |k: int| args@[k]@)),
            decode_step(d@) == match decode_list(av) {
                Some(x) => Some(StepModel { kind: kind@, args: x }),
                None => None,
            },
        decreases a.len() - j,
    {
        proof {
            assert(decreases_to!(*d => (*d)->Object_0));
            assert(decreases_to!(m => m@));
            assert(decreases_to!(m@ => m@[i as int]));
            assert(decreases_to!(m@[i as int] => m@[i as int].1));
            assert(decreases_to!(m@[i as int].1 => (m@[i as int].1)->Array_0));
            assert(decreases_to!(a => a@));
            assert(decreases_to!(a@ => a@[j as int]));
            assert(av[j as int] == a@[j as int]@);
        }
        let v = match decode_value(&a[j]) {
            Some(v) => v,
            None => {
                proof {
                    let sub = av.subrange(0, j + 1);
                    assert(sub.subrange(0, j as int) =~= av.subrange(0, j as int));
                    assert(sub[j as int] == av[j as int]);
                    assert(decode_list(sub) is None);
                    lemma_list_fail(av, j as int + 1);
                }
                return None;
            },
        };
        let ghost before = args@;
        args.push(v);
        proof {
            let sub = av.subrange(0, j + 1);
            assert(sub.subrange(0, j as int) =~= av.subrange(0, j as int));
            let prev = Seq::new(j as nat, |k: int| before[k]@);
            assert(Seq::new((j + 1) as nat, |k: int| args@[k]@) =~= prev.push(args@[j as int]@));
        }
        j = j + 1;
    }
    assert(av.subrange(0, av.len() as int) =~= av);
    let r = TransformStep { kind, args };
    assert(crate::resolver::step_view(r).args =~= Seq::new(r.args.len() as nat, |k: int| r.args@[k]@));
    Some(r)
}

/// An object document read as a token value (see `decode`).
fn decode_object(d: &Doc) -> (r: Option<TokenValue>)
    requires
        d is Object,
    ensures
        opt_value_model(r) == decode(d@),
    decreases d, 0int,
{
    let m = match d {
        Doc::Object(m) => m,
        _ => {
            return None;
        },
    };
    let ghost mv = d@->Object_0;
    let fa = find_field(m, "alias");
    proof {
        lemma_find_matches(*d, "alias"@, fa);
    }
    match fa {
        Some(i) => {
            proof {
                assert(mv[i as int].1 == m@[i as int].1@);
            }
            return match &m[i].1 {
                Doc::Str(s) => Some(TokenValue::Alias(s.clone())),
                _ => None,
            };
        },
        None => {},
    }
    let fr = find_field(m, "reference");
    proof {
        lemma_find_matches(*d, "reference"@, fr);
    }
    match fr {
        Some(i) => {
            proof {
                assert(mv[i as int].1 == m@[i as int].1@);
            }
            return match &m[i].1 {
                Doc::Str(s) => Some(TokenValue::Reference(s.clone())),
                _ => None,
            };
        },
        None => {},
    }
    let ft = find_field(m, "type");
    let fv = find_field(m, "value");
    let fu = find_field(m, "unit");
    proof {
        lemma_find_matches(*d, "type"@, ft);
        lemma_find_matches(*d, "value"@, fv);
        lemma_find_matches(*d, "unit"@, fu);
    }
    match (ft, fv, fu) {
        (Some(it), Some(iv), Some(iu)) => {
            proof {
                assert(mv[it as int].1 == m@[it as int].1@);
                assert(mv[iv as int].1 == m@[iv as int].1@);
                assert(mv[iu as int].1 == m@[iu as int].1@);
            }
            match (&m[it].1, &m[iv].1, &m[iu].1) {
                (Doc::Str(t), Doc::Number(n), Doc::Str(u)) => {
                    if same_text(t.as_str(), "dimension") {
                        return Some(TokenValue::Dimension { value: *n, unit: u.clone() });
                    }
                },
                _ => {},
            }
        },
        _ => {},
    }
    assert(dimension_of(mv) is None);
    let fs = find_field(m, "steps");
    proof {
        lemma_find_matches(*d, "steps"@, fs);
    }
    match fs {
        Some(i) => {
            proof {
                assert(mv[i as int].1 == m@[i as int].1@);
                assert(decreases_to!(*d => (*d)->Object_0));
                assert(decreases_to!(m => m@));
                assert(decreases_to!(m@ => m@[i as int]));
                assert(decreases_to!(m@[i as int] => m@[i as int].1));
            }
            let items = match &m[i].1 {
                Doc::Array(items) => items,
                _ => {
                    return None;
                },
            };
            let ghost iv = m@[i as int].1@->Array_0;
            let mut steps: Vec<TransformStep> = Vec::new();
            let mut j: usize = 0;
            assert(iv.subrange(0, 0) =~= Seq::<DocModel>::empty());
            assert(Seq::new(0, |k: int| crate::resolver::step_view(steps@[k])) =~= Seq::<StepModel>::empty());
            while j < items.len()
                invariant
                    m@[i as int].1 == Doc::Array(*items),
                    i < m.len(),
                    *d == Doc::Object(*m),
                    iv == m@[i as int].1@->Array_0,
                    iv.len() == items.len(),
                    j <= items.len(),
                    steps.len() == j,
                    decode_steps(iv.subrange(0, j as int)) == Some(Seq::new(j as nat, |k: int| crate::resolver::step_view(steps@[k]))),
                    decode(d@) == match decode_steps(iv) {
                        Some(x) => Some(ValueModel::Transform(x)),
                        None => None,
                    },
                decreases items.len() - j,
            {
                proof {
                    assert(decreases_to!(*d => (*d)->Object_0));
                    assert(decreases_to!(m => m@));
                    assert(decreases_to!(m@ => m@[i as int]));
                    assert(decreases_to!(m@[i as int] => m@[i as int].1));
                    assert(decreases_to!(m@[i as int].1 => (m@[i as int].1)->Array_0));
                    assert(decreases_to!(items => items@));
                    assert(decreases_to!(items@ => items@[j as int]));
                    assert(iv[j as int] == items@[j as int]@);
                }
                let st = match decode_transform_step(&items[j]) {
                    Some(st) => st,
                    None => {
                        proof {
                            let sub = iv.subrange(0, j + 1);
                            assert(sub.subrange(0, j as int) =~= iv.subrange(0, j as int));
                            assert(sub[j as int] == iv[j as int]);
                            assert(decode_steps(sub) is None);
                            lemma_steps_fail(iv, j as int + 1);
                        }
                        return None;
                    },
                };
                let ghost before = steps@;
                steps.push(st);
                proof {
                    let sub = iv.subrange(0, j + 1);
                    assert(sub.subrange(0, j as int) =~= iv.subrange(0, j as int));
                    let prev = Seq::new(j as nat, |k: int| crate::resolver::step_view(before[k]));
                    assert(Seq::new((j + 1) as nat, |k: int| crate::resolver::step_view(steps@[k])) =~= prev.push(crate::resolver::step_view(steps@[j as int])));
                }
                j = j + 1;
            }
            assert(iv.subrange(0, iv.len() as int) =~= iv);
            let r = TokenValue::Transform(TransformExpr { steps });
            proof {
                crate::resolver::lemma_transform_view(r);
                assert(crate::resolver::expr_view(r->Transform_0) =~= Seq::new(r->Transform_0.steps.len() as nat, |k: int| crate::resolver::step_view(r->Transform_0.steps@[k])));
            }
            return Some(r);
        },
        None => {},
    }
    let mut out: Vec<(String, TokenValue)> = Vec::new();
    let mut j: usize = 0;
    assert(mv.subrange(0, 0) =~= Seq::<(Seq<char>, DocModel)>::empty());
    assert(Seq::new(0, |k: int| (out@[k].0@, out@[k].1@)) =~= Seq::<(Seq<char>, ValueModel)>::empty());
    while j < m.len()
        invariant
            *d == Doc::Object(*m),
            mv == d@->Object_0,
            mv.len() == m.len(),
            j <= m.len(),
            out.len() == j,
            decode_members(mv.subrange(0, j as int)) == Some(Seq::new(j as nat, |k: int| (out@[k].0@, out@[k].1@))),
            decode(d@) == match decode_members(mv) {
                Some(x) => Some(ValueModel::Object(x)),
                None => None,
            },
        decreases m.len() - j,
    {
        proof {
            assert(decreases_to!(*d => (*d)->Object_0));
            assert(decreases_to!(m => m@));
            assert(decreases_to!(m@ => m@[j as int]));
            assert(decreases_to!(m@[j as int] => m@[j as int].1));
            assert(mv[j as int] == (m@[j as int].0@, m@[j as int].1@));
        }
        let v = match decode_value(&m[j].1) {
            Some(v) => v,
            None => {
                proof {
                    let sub = mv.subrange(0, j + 1);
                    assert(sub.subrange(0, j as int) =~= mv.subrange(0, j as int));
                    assert(sub[j as int] == mv[j as int]);
                    assert(decode_members(sub) is None);
                    lemma_members_fail(mv, j as int + 1);
                }
                return None;
            },
        };
        let ghost before = out@;
        out.push((m[j].0.clone(), v));
        proof {
            let sub = mv.subrange(0, j + 1);
            assert(sub.subrange(0, j as int) =~= mv.subrange(0, j as int));
            let prev = Seq::new(j as nat, |k: int| (before[k].0@, before[k].1@));
            assert(Seq::new((j + 1) as nat, |k: int| (out@[k].0@, out@[k].1@)) =~= prev.push((mv[j as int].0, out@[j as int].1@)));
        }
        j = j + 1;
    }
    assert(mv.subrange(0, mv.len() as int) =~= mv);
    let r = TokenValue::Object(out);
    proof {
        if let ValueModel::Object(x) = r@ {
            assert(x =~= Seq::new(out.len() as nat, |k: int| (out@[k].0@, out@[k].1@)));
        }
    }
    Some(r)
}

/// A token read from its document: an object with a `"value"`, an optional
/// string `"name"` (the path where absent) and an optional string or null
/// `"comment"`.
pub open spec fn decode_token(path: Seq<char>, d: DocModel) -> Option<TokenModel> {
    match d {
        DocModel::Object(m) => match field(m, "value"@) {
            None => None,
            Some(v) => {
                let name: Option<Seq<char>> = match field(m, "name"@) {
                    None => Some(path),
                    Some(DocModel::Str(n)) => Some(n),
                    _ => None,
                };
                let comment: Option<Option<Seq<char>>> = match field(m, "comment"@) {
                    None => Some(None),
                    Some(DocModel::Null) => Some(None),
                    Some(DocModel::Str(c)) => Some(Some(c)),
                    _ => None,
                };
                match (decode(v), name, comment) {
                    (Some(value), Some(n), Some(c)) => Some(TokenModel { name: n, value, comment: c }),
                    _ => None,
                }
            },
        },
        _ => None,
    }
}

/// The tokens of a document's members, in order.
pub open spec fn decode_tokens(m: Seq<(Seq<char>, DocModel)>) -> Option<Seq<(Seq<char>, TokenModel)>>
    decreases m.len(),
{
    if m.len() == 0 {
        Some(Seq::empty())
    } else {
        match (decode_tokens(m.drop_last()), decode_token(m.last().0, m.last().1)) {
            (Some(r), Some(t)) => Some(r.push((m.last().0, t))),
            _ => None,
        }
    }
}

/// The token set a document stands for: an object from paths to tokens.
pub open spec fn decode_set(d: DocModel) -> Option<Seq<(Seq<char>, TokenModel)>> {
    match d {
        DocModel::Object(m) => match decode_tokens(m) {
            Some(e) => Some(insert_all(Seq::empty(), e)),
            None => None,
        },
        _ => None,
    }
}

/// A token read from its document (see `decode_token`).
pub fn decode_token_doc(path: &String, d: &Doc) -> (r: Option<Token>)
    ensures
        match r {
            Some(t) => decode_token(path@, d@) == Some(t@),
            None => decode_token(path@, d@) is None,
        },
{
    let m = match d {
        Doc::Object(m) => m,
        _ => {
            return None;
        },
    };
    let ghost mv = d@->Object_0;
    let fv = find_field(m, "value");
    let fn_ = find_field(m, "name");
    let fc = find_field(m, "comment");
    proof {
        lemma_find_matches(*d, "value"@, fv);
        lemma_find_matches(*d, "name"@, fn_);
        lemma_find_matches(*d, "comment"@, fc);
    }
    let iv = match fv {
        Some(i) => i,
        None => {
            return None;
        },
    };
    proof {
        assert(mv[iv as int].1 == m@[iv as int].1@);
    }
    let value = match decode_value(&m[iv].1) {
        Some(v) => v,
        None => {
            return None;
        },
    };
    let name = match fn_ {
        None => path.clone(),
        Some(i) => {
            proof {
                assert(mv[i as int].1 == m@[i as int].1@);
            }
            match &m[i].1 {
                Doc::Str(n) => n.clone(),
                _ => {
                    return None;
                },
            }
        },
    };
    let comment = match fc {
        None => None,
        Some(i) => {
            proof {
                assert(mv[i as int].1 == m@[i as int].1@);
            }
            match &m[i].1 {
                Doc::Null => None,
                Doc::Str(c) => Some(c.clone()),
                _ => {
                    return None;
                },
            }
        },
    };
    Some(Token { name, value, comment })
}

proof fn lemma_tokens_fail(a: Seq<(Seq<char>, DocModel)>, n: int)
    requires
        0 <= n <= a.len(),
        decode_tokens(a.subrange(0, n)) is None,
    ensures
        decode_tokens(a) is None,
    decreases a.len() - n,
{
    if n < a.len() {
        let sub = a.subrange(0, n + 1);
        assert(sub.drop_last() =~= a.subrange(0, n));
        lemma_tokens_fail(a, n + 1);
    } else {
        assert(a.subrange(0, n) =~= a);
    }
}

/// The token set a document stands for (see `decode_set`); `None` where the
/// document is not an object of well-formed tokens.
pub fn decode_token_set(d: &Doc) -> (r: Option<TokenSet>)
    ensures
        match r {
            Some(set) => decode_set(d@) == Some(token_entries(set)),
            None => decode_set(d@) is None,
        },
{
    let m = match d {
        Doc::Object(m) => m,
        _ => {
            return None;
        },
    };
    let ghost mv = d@->Object_0;
    let mut set = new_token_set();
    let mut j: usize = 0;
    assert(mv.subrange(0, 0) =~= Seq::<(Seq<char>, DocModel)>::empty());
    while j < m.len()
        invariant
            *d == Doc::Object(*m),
            mv == d@->Object_0,
            mv.len() == m.len(),
            j <= m.len(),
            decode_tokens(mv.subrange(0, j as int)) is Some,
            token_entries(set) == insert_all(Seq::empty(), decode_tokens(mv.subrange(0, j as int))->0),
        decreases m.len() - j,
    {
        proof {
            assert(mv[j as int] == (m@[j as int].0@, m@[j as int].1@));
        }
        let sub = Ghost(mv.subrange(0, j + 1));
        proof {
            assert(sub@.drop_last() =~= mv.subrange(0, j as int));
            assert(sub@.last() == mv[j as int]);
        }
        let t = match decode_token_doc(&m[j].0, &m[j].1) {
            Some(t) => t,
            None => {
                proof {
                    assert(decode_tokens(sub@) is None);
                    lemma_tokens_fail(mv, j as int + 1);
                }
                return None;
            },
        };
        let ghost tm = t@;
        token_set_insert(&mut set, m[j].0.clone(), t);
        proof {
            let prev = decode_tokens(mv.subrange(0, j as int))->0;
            assert(decode_tokens(sub@) == Some(prev.push((mv[j as int].0, tm))));
            assert(prev.push((mv[j as int].0, tm)).drop_last() =~= prev);
        }
        j = j + 1;
    }
    assert(mv.subrange(0, mv.len() as int) =~= mv);
    Some(set)
}

} // verus!
