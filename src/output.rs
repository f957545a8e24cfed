use vstd::prelude::*;
use vstd::string::*;
use indexmap::IndexMap;
use crate::css_var::{css_key, make_css_custom_property_key, CssKeyOptions};
use crate::json::{json_text, push_json};
use crate::num::{fmt_num, num_text};
use crate::resolve_spec::Entries;
use crate::tokenset::{
    inserted, new_string_map, new_token_set, string_entries, string_map_insert, token_entries,
    token_set_entry, token_set_insert, token_set_len, TokenSet,
};
use crate::value::{copy_token, TokenModel, TokenValue, ValueModel};

verus! {

/// How a value is written out: strings and colors as they are, numbers as
/// `fmt_num` writes them, dimensions with their unit, objects as compact
/// JSON, and what is left unresolved as a tagged diagnostic.
pub open spec fn value_text(v: ValueModel) -> Seq<char> {
    match v {
        ValueModel::Str(s) => s,
        ValueModel::Number(n) => num_text(n),
        ValueModel::Bool(b) => if b { "true"@ } else { "false"@ },
        ValueModel::Object(_) => json_text(v),
        ValueModel::Alias(a) => "alias("@ + a + ")"@,
        ValueModel::Reference(r) => "reference("@ + r + ")"@,
        ValueModel::Color(c) => c,
        ValueModel::Dimension(n, u) => num_text(n) + u,
        ValueModel::Transform(_) => "unresolved-transform"@,
        ValueModel::Null => "null"@,
    }
}

/// The text of a value (see `value_text`).
pub fn token_value_to_string(value: &TokenValue) -> (r: String)
    ensures
        r@ == value_text(value@),
{
    match value {
        TokenValue::String(s) => s.clone(),
        TokenValue::Number(n) => fmt_num(n),
        TokenValue::Bool(b) => if *b {
            String::from_str("true")
        } else {
            String::from_str("false")
        },
        TokenValue::Object(_) => {
            let mut out = String::new();
            push_json(&mut out, value);
            assert(out@ =~= json_text(value@));
            out
        },
        TokenValue::Alias(a) => {
            let mut out = String::from_str("alias(");
            out.append(a.as_str());
            out.append(")");
            out
        },
        TokenValue::Reference(r) => {
            let mut out = String::from_str("reference(");
            out.append(r.as_str());
            out.append(")");
            out
        },
        TokenValue::Color(c) => c.clone(),
        TokenValue::Dimension { value, unit } => {
            let mut out = fmt_num(value);
            out.append(unit.as_str());
            out
        },
        TokenValue::Transform(_) => String::from_str("unresolved-transform"),
        TokenValue::Null => String::from_str("null"),
    }
}

/// Each entry inserted in turn: later keys replace the values of equal
/// earlier ones and keep their places.
pub open spec fn insert_all<V>(e: Seq<(Seq<char>, V)>, add: Seq<(Seq<char>, V)>) -> Seq<(Seq<char>, V)>
    decreases add.len(),
{
    if add.len() == 0 {
        e
    } else {
        inserted(insert_all(e, add.drop_last()), add.last().0, add.last().1)
    }
}

/// Each token's CSS custom property name, with its value's text.
pub open spec fn css_properties(s: Entries, opts: CssKeyOptions) -> Seq<(Seq<char>, Seq<char>)>
    decreases s.len(),
{
    if s.len() == 0 {
        Seq::empty()
    } else {
        inserted(css_properties(s.drop_last(), opts), opts.key_of(s.last().0), value_text(s.last().1.value))
    }
}

/// Each token's path, with its value's text.
pub open spec fn path_strings(s: Entries) -> Seq<(Seq<char>, Seq<char>)>
    decreases s.len(),
{
    if s.len() == 0 {
        Seq::empty()
    } else {
        inserted(path_strings(s.drop_last()), s.last().0, value_text(s.last().1.value))
    }
}

/// One `  --name: value;` line for each token, names under `prefix`.
pub open spec fn declarations(s: Entries, prefix: Option<Seq<char>>) -> Seq<char>
    decreases s.len(),
{
    if s.len() == 0 {
        Seq::empty()
    } else {
        declarations(s.drop_last(), prefix) + "  "@ + css_key(s.last().0, prefix, '-', true) + ": "@
            + value_text(s.last().1.value) + ";\n"@
    }
}

pub open spec fn opt_str_view(p: Option<&str>) -> Option<Seq<char>> {
    match p {
        Some(x) => Some(x@),
        None => None,
    }
}

/// The CSS custom properties of a token set, named with `opts`.
pub fn to_css_custom_properties_with_options(tokens: &TokenSet, opts: &CssKeyOptions) -> (r: IndexMap<String, String>)
    ensures
        string_entries(r) == css_properties(token_entries(*tokens), *opts),
{
    let ghost s = token_entries(*tokens);
    let mut map = new_string_map();
    let n = token_set_len(tokens);
    let mut i: usize = 0;
    while i < n
        invariant
            n == s.len(),
            s == token_entries(*tokens),
            i <= n,
            string_entries(map) == css_properties(s.subrange(0, i as int), *opts),
        decreases n - i,
    {
        let (key, token) = token_set_entry(tokens, i);
        let name = make_css_custom_property_key(key.as_str(), opts);
        let value = token_value_to_string(&token.value);
        string_map_insert(&mut map, name, value);
        proof {
            assert(s.subrange(0, i + 1).drop_last() =~= s.subrange(0, i as int));
        }
        i = i + 1;
    }
    assert(s.subrange(0, n as int) =~= s);
    map
}

/// The CSS custom properties of a token set, with the default naming.
pub fn to_css_custom_properties(tokens: &TokenSet) -> (r: IndexMap<String, String>)
    ensures
        exists|opts: CssKeyOptions|
            opts.prefix is None && opts.separator == '-' && opts.lowercase
                && string_entries(r) == css_properties(token_entries(*tokens), opts),
{
    let opts = CssKeyOptions::default();
    to_css_custom_properties_with_options(tokens, &opts)
}

/// Each token's path with the text of its value.
pub fn to_resolved_string_map(tokens: &TokenSet) -> (r: IndexMap<String, String>)
    ensures
        string_entries(r) == path_strings(token_entries(*tokens)),
{
    let ghost s = token_entries(*tokens);
    let mut map = new_string_map();
    let n = token_set_len(tokens);
    let mut i: usize = 0;
    while i < n
        invariant
            n == s.len(),
            s == token_entries(*tokens),
            i <= n,
            string_entries(map) == path_strings(s.subrange(0, i as int)),
        decreases n - i,
    {
        let (key, token) = token_set_entry(tokens, i);
        let value = token_value_to_string(&token.value);
        string_map_insert(&mut map, key.clone(), value);
        proof {
            assert(s.subrange(0, i + 1).drop_last() =~= s.subrange(0, i as int));
        }
        i = i + 1;
    }
    assert(s.subrange(0, n as int) =~= s);
    map
}

/// A stylesheet: `selector {`, one `  --name: value;` line per token (names
/// under the optional prefix), and `}`.
pub fn to_css_stylesheet(tokens: &TokenSet, selector: &str, prefix: Option<&str>) -> (r: String)
    ensures
        r@ == selector@ + " {\n"@ + declarations(token_entries(*tokens), opt_str_view(prefix)) + "}"@,
{
    let ghost s = token_entries(*tokens);
    let opts = CssKeyOptions {
        prefix: match prefix {
            Some(p) => Some(p.to_owned()),
            None => None,
        },
        separator: '-',
        lowercase: true,
    };
    assert(opts.prefix_view() == opt_str_view(prefix));
    let mut out = String::from_str(selector);
    out.append(" {\n");
    let ghost head = out@;
    let n = token_set_len(tokens);
    let mut i: usize = 0;
    assert(head + declarations(s.subrange(0, 0), opt_str_view(prefix)) =~= head);
    while i < n
        invariant
            n == s.len(),
            s == token_entries(*tokens),
            i <= n,
            out@ == head + declarations(s.subrange(0, i as int), opt_str_view(prefix)),
            opts.prefix_view() == opt_str_view(prefix),
            opts.separator == '-',
            opts.lowercase,
        decreases n - i,
    {
        let (key, token) = token_set_entry(tokens, i);
        let name = make_css_custom_property_key(key.as_str(), &opts);
        let value = token_value_to_string(&token.value);
        out.append("  ");
        out.append(name.as_str());
        out.append(": ");
        out.append(value.as_str());
        out.append(";\n");
        proof {
            assert(s.subrange(0, i + 1).drop_last() =~= s.subrange(0, i as int));
        }
        i = i + 1;
        assert(out@ =~= head + declarations(s.subrange(0, i as int), opt_str_view(prefix)));
    }
    assert(s.subrange(0, n as int) =~= s);
    out.append("}");
    out
}

/// `overrides` laid over `base`: a key of `overrides` replaces the token of
/// `base` in its place; other keys keep their tokens; new keys come last, in
/// the order of `overrides`.
pub fn merge_token_sets(base: &TokenSet, overrides: &TokenSet) -> (r: TokenSet)
    ensures
        token_entries(r) == insert_all(insert_all(Seq::empty(), token_entries(*base)), token_entries(*overrides)),
{
    let ghost b = token_entries(*base);
    let ghost o = token_entries(*overrides);
    let mut out = new_token_set();
    let n = token_set_len(base);
    let mut i: usize = 0;
    while i < n
        invariant
            n == b.len(),
            b == token_entries(*base),
            i <= n,
            token_entries(out) == insert_all(Seq::empty(), b.subrange(0, i as int)),
        decreases n - i,
    {
        let (key, token) = token_set_entry(base, i);
        token_set_insert(&mut out, key.clone(), copy_token(token));
        proof {
            assert(b.subrange(0, i + 1).drop_last() =~= b.subrange(0, i as int));
        }
        i = i + 1;
    }
    assert(b.subrange(0, n as int) =~= b);
    let ghost start = token_entries(out);
    let m = token_set_len(overrides);
    let mut j: usize = 0;
    assert(o.subrange(0, 0) =~= Seq::<(Seq<char>, TokenModel)>::empty());
    while j < m
        invariant
            m == o.len(),
            o == token_entries(*overrides),
            j <= m,
            token_entries(out) == insert_all(start, o.subrange(0, j as int)),
        decreases m - j,
    {
        let (key, token) = token_set_entry(overrides, j);
        token_set_insert(&mut out, key.clone(), copy_token(token));
        proof {
            assert(o.subrange(0, j + 1).drop_last() =~= o.subrange(0, j as int));
        }
        j = j + 1;
    }
    assert(o.subrange(0, m as int) =~= o);
    out
}

} // verus!
