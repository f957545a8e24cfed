use vstd::prelude::*;
use vstd::string::*;
use crate::num::{fmt_num, num_text, Num};
use crate::text::push_char;
use crate::value::{StepModel, TokenValue, TransformStep, ValueModel};

verus! {

pub open spec fn hex_digit(d: nat) -> char {
    if d < 10 {
        ((48 + d) as u8) as char
    } else {
        ((87 + d) as u8) as char
    }
}

/// How a character is written inside a JSON string: quote and backslash are
/// escaped, control characters take their short escape or `\u00XX`, and
/// everything else stands as it is.
pub open spec fn escaped_char(c: char) -> Seq<char> {
    let n = c as u32;
    if c == '"' {
        seq!['\\', '"']
    } else if c == '\\' {
        seq!['\\', '\\']
    } else if n == 8 {
        seq!['\\', 'b']
    } else if n == 9 {
        seq!['\\', 't']
    } else if n == 10 {
        seq!['\\', 'n']
    } else if n == 12 {
        seq!['\\', 'f']
    } else if n == 13 {
        seq!['\\', 'r']
    } else if n < 0x20 {
        seq!['\\', 'u', '0', '0', hex_digit((n / 16) as nat), hex_digit((n % 16) as nat)]
    } else {
        seq![c]
    }
}

pub open spec fn escaped(s: Seq<char>) -> Seq<char>
    decreases s.len(),
{
    if s.len() == 0 {
        Seq::empty()
    } else {
        escaped(s.drop_last()) + escaped_char(s.last())
    }
}

/// A JSON string literal.
pub open spec fn json_string(s: Seq<char>) -> Seq<char> {
    seq!['"'] + escaped(s) + seq!['"']
}

/// Relies on `serde_json::to_string` for a `str`: the string in quotes, each
/// character escaped as its `ESCAPE` table says (`escaped_char`). Writing a
/// `str` to memory cannot fail.
#[verifier::external_body]
fn json_quote(s: &str) -> (r: String)
    ensures
        r@ == json_string(s@),
{
    serde_json::to_string(s).unwrap()
}

/// A number as JSON writes a float: integral values keep a `.0`.
pub open spec fn json_number(n: Num) -> Seq<char> {
    let a = if n.numer_spec() < 0 { -n.numer_spec() } else { n.numer_spec() };
    if n.denom_spec() > 0 && a % n.denom_spec() == 0 {
        num_text(n) + seq!['.', '0']
    } else {
        num_text(n)
    }
}

/// The compact JSON rendering of a value (aliases and references as their
/// path strings, as an untagged encoding writes them).
pub open spec fn json_text(v: ValueModel) -> Seq<char>
    decreases v,
{
    match v {
        ValueModel::Str(s) => json_string(s),
        ValueModel::Number(n) => json_number(n),
        ValueModel::Bool(b) => if b { seq!['t', 'r', 'u', 'e'] } else { seq!['f', 'a', 'l', 's', 'e'] },
        ValueModel::Object(m) => seq!['{'] + json_members(m) + seq!['}'],
        ValueModel::Alias(s) => json_string(s),
        ValueModel::Reference(s) => json_string(s),
        ValueModel::Color(s) => json_string(s),
        ValueModel::Dimension(n, u) => seq!['{'] + json_string("value"@) + seq![':'] + json_number(n)
            + seq![','] + json_string("unit"@) + seq![':'] + json_string(u) + seq!['}'],
        ValueModel::Transform(steps) => seq!['{'] + json_string("steps"@) + seq![':', '['] + json_steps(steps) + seq![']', '}'],
        ValueModel::Null => seq!['n', 'u', 'l', 'l'],
    }
}

/// `"key":value` pairs joined by commas.
pub open spec fn json_members(m: Seq<(Seq<char>, ValueModel)>) -> Seq<char>
    decreases m,
{
    if m.len() == 0 {
        Seq::empty()
    } else {
        let item = json_string(m[m.len() - 1].0) + seq![':'] + json_text(m[m.len() - 1].1);
        if m.len() == 1 {
            item
        } else {
            json_members(m.subrange(0, m.len() - 1)) + seq![','] + item
        }
    }
}

/// Values joined by commas.
pub open spec fn json_values(a: Seq<ValueModel>) -> Seq<char>
    decreases a,
{
    if a.len() == 0 {
        Seq::empty()
    } else {
        let item = json_text(a[a.len() - 1]);
        if a.len() == 1 {
            item
        } else {
            json_values(a.subrange(0, a.len() - 1)) + seq![','] + item
        }
    }
}

/// A step as `{"type":...,"args":[...]}`.
pub open spec fn json_step(st: StepModel) -> Seq<char>
    decreases st,
{
    seq!['{'] + json_string("type"@) + seq![':'] + json_string(st.kind) + seq![','] + json_string("args"@)
        + seq![':', '['] + json_values(st.args) + seq![']', '}']
}

/// Steps joined by commas.
pub open spec fn json_steps(steps: Seq<StepModel>) -> Seq<char>
    decreases steps,
{
    if steps.len() == 0 {
        Seq::empty()
    } else {
        let item = json_step(steps[steps.len() - 1]);
        if steps.len() == 1 {
            item
        } else {
            json_steps(steps.subrange(0, steps.len() - 1)) + seq![','] + item
        }
    }
}

/// Appends `s` as a JSON string literal.
pub fn push_json_string(out: &mut String, s: &str)
    ensures
        final(out)@ == old(out)@ + json_string(s@),
{
    let q = json_quote(s);
    out.append(q.as_str());
}

fn push_json_number(out: &mut String, n: &Num)
    ensures
        final(out)@ == old(out)@ + json_number(*n),
{
    let t = fmt_num(n);
    out.append(t.as_str());
    let numer = n.numer();
    let d = n.denom();
    let a: u64 = if numer < 0 {
        (-(numer as i128)) as u64
    } else {
        numer as u64
    };
    if a % d == 0 {
        push_char(out, '.');
        push_char(out, '0');
    }
    assert(final(out)@ =~= old(out)@ + json_number(*n));
}

/// Appends a step as `{"type":...,"args":[...]}`.
fn push_json_step(out: &mut String, step: &TransformStep)
    ensures
        final(out)@ == old(out)@ + json_step(crate::resolver::step_view(*step)),
    decreases step,
{
    let ghost start = out@;
    push_char(out, '{');
    push_json_string(out, "type");
    push_char(out, ':');
    push_json_string(out, step.kind.as_str());
    push_char(out, ',');
    push_json_string(out, "args");
    push_char(out, ':');
    push_char(out, '[');
    let ghost args_open = out@;
    let ghost am = crate::resolver::step_view(*step).args;
    assert(args_open + json_values(am.subrange(0, 0)) =~= args_open);
    let mut j: usize = 0;
    while j < step.args.len()
        invariant
            am == crate::resolver::step_view(*step).args,
            am.len() == step.args.len(),
            j <= step.args.len(),
            out@ == args_open + json_values(am.subrange(0, j as int)),
        decreases step.args.len() - j,
    {
        proof {
            assert(decreases_to!(step.args => step.args@));
            assert(decreases_to!(step.args@ => step.args@[j as int]));
            assert(decreases_to!(step => step.args@[j as int]));
        }
        let ghost before_arg = out@;
        if j > 0 {
            push_char(out, ',');
        }
        push_json(out, &step.args[j]);
        proof {
            let sub = am.subrange(0, j + 1);
            assert(sub.subrange(0, j as int) =~= am.subrange(0, j as int));
            assert(sub[j as int] == am[j as int]);
            assert(am[j as int] == step.args@[j as int]@);
            if j == 0 {
                assert(out@ =~= args_open + json_text(am[j as int]));
            } else {
                assert(out@ =~= before_arg + seq![','] + json_text(am[j as int]));
            }
        }
        j = j + 1;
    }
    push_char(out, ']');
    push_char(out, '}');
    proof {
        let am = crate::resolver::step_view(*step).args;
        assert(am.subrange(0, am.len() as int) =~= am);
    }
    assert(out@ =~= start + json_step(crate::resolver::step_view(*step)));
}

/// Appends the compact JSON rendering of `v`.
pub fn push_json(out: &mut String, v: &TokenValue)
    ensures
        final(out)@ == old(out)@ + json_text(v@),
    decreases v,
{
    let ghost start = out@;
    match v {
        TokenValue::String(s) => push_json_string(out, s.as_str()),
        TokenValue::Number(n) => push_json_number(out, n),
        TokenValue::Bool(b) => {
            if *b {
                push_char(out, 't');
                push_char(out, 'r');
                push_char(out, 'u');
                push_char(out, 'e');
            } else {
                push_char(out, 'f');
                push_char(out, 'a');
                push_char(out, 'l');
                push_char(out, 's');
                push_char(out, 'e');
            }
            assert(out@ =~= start + json_text(v@));
        },
        TokenValue::Object(members) => {
            let ghost mm = v@->Object_0;
            push_char(out, '{');
            let ghost open = out@;
            let mut i: usize = 0;
            assert(open + json_members(mm.subrange(0, 0)) =~= open);
            while i < members.len()
                invariant
                    *v == TokenValue::Object(*members),
                    mm == v@->Object_0,
                    mm.len() == members.len(),
                    i <= members.len(),
                    out@ == open + json_members(mm.subrange(0, i as int)),
                decreases members.len() - i,
            {
                proof {
                    assert(decreases_to!(*v => (*v)->Object_0));
                    assert(decreases_to!(members => members@));
                    assert(decreases_to!(members@ => members@[i as int]));
                    assert(decreases_to!(v => members@[i as int].1));
                }
                let ghost before = out@;
                if i > 0 {
                    push_char(out, ',');
                }
                push_json_string(out, members[i].0.as_str());
                push_char(out, ':');
                push_json(out, &members[i].1);
                proof {
                    let sub = mm.subrange(0, i + 1);
                    assert(sub.subrange(0, i as int) =~= mm.subrange(0, i as int));
                    assert(sub[i as int] == mm[i as int]);
                    assert(mm[i as int] == (members@[i as int].0@, members@[i as int].1@));
                    let item = json_string(mm[i as int].0) + seq![':'] + json_text(mm[i as int].1);
                    if i == 0 {
                        assert(out@ =~= open + item);
                    } else {
                        assert(out@ =~= before + seq![','] + item);
                    }
                }
                i = i + 1;
            }
            push_char(out, '}');
            assert(mm.subrange(0, mm.len() as int) =~= mm);
            assert(out@ =~= start + json_text(v@));
        },
        TokenValue::Alias(s) => push_json_string(out, s.as_str()),
        TokenValue::Reference(s) => push_json_string(out, s.as_str()),
        TokenValue::Color(s) => push_json_string(out, s.as_str()),
        TokenValue::Dimension { value, unit } => {
            push_char(out, '{');
            push_json_string(out, "value");
            push_char(out, ':');
            push_json_number(out, value);
            push_char(out, ',');
            push_json_string(out, "unit");
            push_char(out, ':');
            push_json_string(out, unit.as_str());
            push_char(out, '}');
            assert(out@ =~= start + json_text(v@));
        },
        TokenValue::Transform(e) => {
            proof {
                crate::resolver::lemma_transform_view(*v);
            }
            let ghost ev = crate::resolver::expr_view(*e);
            push_char(out, '{');
            push_json_string(out, "steps");
            push_char(out, ':');
            push_char(out, '[');
            let ghost open = out@;
            assert(open + json_steps(ev.subrange(0, 0)) =~= open);
            let mut i: usize = 0;
            while i < e.steps.len()
                invariant
                    *v == TokenValue::Transform(*e),
                    ev == crate::resolver::expr_view(*e),
                    v@ == ValueModel::Transform(ev),
                    i <= e.steps.len(),
                    out@ == open + json_steps(ev.subrange(0, i as int)),
                decreases e.steps.len() - i,
            {
                let ghost before = out@;
                if i > 0 {
                    push_char(out, ',');
                }
                let step = &e.steps[i];
                proof {
                    assert(decreases_to!(*v => (*v)->Transform_0));
                    assert(decreases_to!((*v)->Transform_0 => e.steps));
                    assert(decreases_to!(e.steps => e.steps@));
                    assert(decreases_to!(e.steps@ => e.steps@[i as int]));
                }
                push_json_step(out, step);
                proof {
                    let sub = ev.subrange(0, i + 1);
                    assert(sub.subrange(0, i as int) =~= ev.subrange(0, i as int));
                    assert(sub[i as int] == ev[i as int]);
                    assert(ev[i as int].kind == step.kind@);
                    let item = json_step(ev[i as int]);
                    if i == 0 {
                        assert(out@ =~= open + item);
                    } else {
                        assert(out@ =~= before + seq![','] + item);
                    }
                }
                i = i + 1;
            }
            push_char(out, ']');
            push_char(out, '}');
            assert(ev.subrange(0, ev.len() as int) =~= ev);
            assert(out@ =~= start + json_text(v@));
        },
        TokenValue::Null => {
            push_char(out, 'n');
            push_char(out, 'u');
            push_char(out, 'l');
            push_char(out, 'l');
            assert(out@ =~= start + json_text(v@));
        },
    }
}

} // verus!
