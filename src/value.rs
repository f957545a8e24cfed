use vstd::prelude::*;
use crate::num::Num;

verus! {

/// One operation of a transform pipeline: its name and its literal arguments.
#[derive(Debug, PartialEq)]
pub struct TransformStep {
    pub kind: String,
    pub args: Vec<TokenValue>,
}

/// An ordered pipeline of operations; each consumes the previous one's output.
#[derive(Debug, PartialEq)]
pub struct TransformExpr {
    pub steps: Vec<TransformStep>,
}

/// The value of a design token.
#[derive(Debug, PartialEq)]
pub enum TokenValue {
    String(String),
    Number(Num),
    Bool(bool),
    /// Ordered members; keys are expected to be unique.
    Object(Vec<(String, TokenValue)>),
    /// Becomes exactly the resolved value of the token at this path.
    Alias(String),
    /// Becomes an indirection (`var(--...)`) to the token at this path.
    Reference(String),
    Color(String),
    Dimension { value: Num, unit: String },
    Transform(TransformExpr),
    Null,
}

/// A named token with an optional comment.
#[derive(Debug, PartialEq)]
pub struct Token {
    pub name: String,
    pub value: TokenValue,
    pub comment: Option<String>,
}

/// The mathematical model of a `TokenValue`: strings become `Seq<char>`.
pub enum ValueModel {
    Str(Seq<char>),
    Number(Num),
    Bool(bool),
    Object(Seq<(Seq<char>, ValueModel)>),
    Alias(Seq<char>),
    Reference(Seq<char>),
    Color(Seq<char>),
    Dimension(Num, Seq<char>),
    Transform(Seq<StepModel>),
    Null,
}

/// The model of a `TransformStep`.
pub struct StepModel {
    pub kind: Seq<char>,
    pub args: Seq<ValueModel>,
}

/// The model of a `Token`.
pub struct TokenModel {
    pub name: Seq<char>,
    pub value: ValueModel,
    pub comment: Option<Seq<char>>,
}

/// No member key occurs twice in an object, at any depth.
pub open spec fn value_wf(v: ValueModel) -> bool
    decreases v,
{
    match v {
        ValueModel::Object(m) => (forall|i: int, j: int| 0 <= i < j < m.len() ==> m[i].0 != m[j].0)
            && forall|i: int| 0 <= i < m.len() ==> value_wf(#[trigger] m[i].1),
        _ => true,
    }
}

pub open spec fn opt_str_view(o: Option<String>) -> Option<Seq<char>> {
    match o {
        Some(s) => Some(s@),
        None => None,
    }
}

impl TokenValue {
    pub open spec fn view(&self) -> ValueModel
        decreases self,
    {
        match self {
            TokenValue::String(s) => ValueModel::Str(s@),
            TokenValue::Number(n) => ValueModel::Number(*n),
            TokenValue::Bool(b) => ValueModel::Bool(*b),
            TokenValue::Object(m) => ValueModel::Object(
                Seq::new(
                    m.len() as nat,
                    |i: int|
                        if 0 <= i < m.len() {
                            (m@[i].0@, m@[i].1.view())
                        } else {
                            (Seq::empty(), ValueModel::Null)
                        },
                ),
            ),
            TokenValue::Alias(s) => ValueModel::Alias(s@),
            TokenValue::Reference(s) => ValueModel::Reference(s@),
            TokenValue::Color(s) => ValueModel::Color(s@),
            TokenValue::Dimension { value, unit } => ValueModel::Dimension(*value, unit@),
            TokenValue::Transform(e) => ValueModel::Transform(
                Seq::new(
                    e.steps.len() as nat,
                    |i: int|
                        if 0 <= i < e.steps.len() {
                            StepModel {
                                kind: e.steps@[i].kind@,
                                args: Seq::new(
                                    e.steps@[i].args.len() as nat,
                                    |j: int|
                                        if 0 <= j < e.steps@[i].args.len() {
                                            e.steps@[i].args@[j].view()
                                        } else {
                                            ValueModel::Null
                                        },
                                ),
                            }
                        } else {
                            StepModel { kind: Seq::empty(), args: Seq::empty() }
                        },
                ),
            ),
            TokenValue::Null => ValueModel::Null,
        }
    }
}

impl Token {
    pub open spec fn view(&self) -> TokenModel {
        TokenModel { name: self.name@, value: self.value@, comment: opt_str_view(self.comment) }
    }
}

pub fn copy_opt_string(o: &Option<String>) -> (r: Option<String>)
    ensures
        opt_str_view(r) == opt_str_view(*o),
{
    match o {
        Some(s) => Some(s.clone()),
        None => None,
    }
}

fn copy_step(s: &TransformStep) -> (r: TransformStep)
    ensures
        r.kind@ == s.kind@,
        r.args.len() == s.args.len(),
        forall|j: int| 0 <= j < s.args.len() ==> (#[trigger] r.args@[j])@ == s.args@[j]@,
    decreases s, 0nat,
{
    let mut args: Vec<TokenValue> = Vec::new();
    let mut j: usize = 0;
    while j < s.args.len()
        invariant
            j <= s.args.len(),
            args.len() == j,
            forall|k: int| 0 <= k < j ==> (#[trigger] args@[k])@ == s.args@[k]@,
        decreases s.args.len() - j,
    {
        proof {
            assert(decreases_to!(s.args => s.args@));
            assert(decreases_to!(s.args@ => s.args@[j as int]));
            assert(decreases_to!(s => s.args@[j as int]));
        }
        args.push(copy_value(&s.args[j]));
        j = j + 1;
    }
    TransformStep { kind: s.kind.clone(), args }
}

/// A copy of `v` with the same model.
pub fn copy_value(v: &TokenValue) -> (r: TokenValue)
    ensures
        r@ == v@,
    decreases v, 1nat,
{
    match v {
        TokenValue::String(s) => TokenValue::String(s.clone()),
        TokenValue::Number(n) => TokenValue::Number(*n),
        TokenValue::Bool(b) => TokenValue::Bool(*b),
        TokenValue::Object(m) => {
            let mut out: Vec<(String, TokenValue)> = Vec::new();
            let mut i: usize = 0;
            while i < m.len()
                invariant
                    *v == TokenValue::Object(*m),
                    i <= m.len(),
                    out.len() == i,
                    forall|k: int|
                        0 <= k < i ==> (#[trigger] out@[k]).0@ == m@[k].0@ && out@[k].1@
                            == m@[k].1@,
                decreases m.len() - i,
            {
                proof {
                    assert(decreases_to!(*v => (*v)->Object_0));
                    assert(decreases_to!(m => m@));
                    assert(decreases_to!(m@ => m@[i as int]));
                    assert(decreases_to!(m@[i as int] => m@[i as int].1));
                    assert(decreases_to!(v => m@[i as int].1));
                }
                let c = copy_value(&m[i].1);
                out.push((m[i].0.clone(), c));
                i = i + 1;
            }
            let r = TokenValue::Object(out);
            assert(r@ == v@) by {
                if let ValueModel::Object(a) = r@ {
                    if let ValueModel::Object(b) = v@ {
                        assert(a =~= b);
                    }
                }
            }
            r
        },
        TokenValue::Alias(s) => TokenValue::Alias(s.clone()),
        TokenValue::Reference(s) => TokenValue::Reference(s.clone()),
        TokenValue::Color(s) => TokenValue::Color(s.clone()),
        TokenValue::Dimension { value, unit } => TokenValue::Dimension {
            value: *value,
            unit: unit.clone(),
        },
        TokenValue::Transform(e) => {
            let mut steps: Vec<TransformStep> = Vec::new();
            let mut i: usize = 0;
            while i < e.steps.len()
                invariant
                    *v == TokenValue::Transform(*e),
                    i <= e.steps.len(),
                    steps.len() == i,
                    forall|k: int|
                        0 <= k < i ==> (#[trigger] steps@[k]).kind@ == e.steps@[k].kind@
                            && steps@[k].args.len() == e.steps@[k].args.len() && forall|j: int|
                            0 <= j < e.steps@[k].args.len() ==> (#[trigger] steps@[k].args@[j])@
                                == e.steps@[k].args@[j]@,
                decreases e.steps.len() - i,
            {
                proof {
                    assert(decreases_to!(*v => (*v)->Transform_0));
                    assert(decreases_to!((*v)->Transform_0 => e.steps));
                    assert(decreases_to!(e.steps => e.steps@));
                    assert(decreases_to!(e.steps@ => e.steps@[i as int]));
                    assert(decreases_to!(v => e.steps@[i as int]));
                }
                let c = copy_step(&e.steps[i]);
                steps.push(c);
                i = i + 1;
            }
            let r = TokenValue::Transform(TransformExpr { steps });
            assert(r@ == v@) by {
                if let ValueModel::Transform(a) = r@ {
                    if let ValueModel::Transform(b) = v@ {
                        assert forall|k: int| 0 <= k < a.len() implies a[k] == b[k] by {
                            assert(a[k].args =~= b[k].args);
                        }
                        assert(a =~= b);
                    }
                }
            }
            r
        },
        TokenValue::Null => TokenValue::Null,
    }
}

/// A copy of `t` with the same model.
pub fn copy_token(t: &Token) -> (r: Token)
    ensures
        r@ == t@,
{
    Token { name: t.name.clone(), value: copy_value(&t.value), comment: copy_opt_string(&t.comment) }
}

} // verus!
