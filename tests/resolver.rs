use indexmap::IndexMap;
use substrate_tokens::css_var::{css_var, CssKeyOptions};
use substrate_tokens::doc::{decode_token_set, Doc};
use substrate_tokens::error::ResolveError;
use substrate_tokens::num::Num;
use substrate_tokens::resolver::{
    resolve_tokens, resolve_tokens_with_options, resolve_tokens_with_registry,
};
use substrate_tokens::tokenset::TokenSet;
use substrate_tokens::transform::TransformRegistry;
use substrate_tokens::value::{Token, TokenValue, TransformExpr, TransformStep};

fn token(name: &str, value: TokenValue) -> Token {
    Token { name: name.to_string(), value, comment: None }
}

fn put(set: &mut TokenSet, name: &str, value: TokenValue) {
    set.insert(name.to_string(), token(name, value));
}

fn step(kind: &str, args: Vec<TokenValue>) -> TransformStep {
    TransformStep { kind: kind.to_string(), args }
}

fn s(text: &str) -> TokenValue {
    TokenValue::String(text.to_string())
}

fn whole(n: i64) -> TokenValue {
    TokenValue::Number(Num::from_int(n))
}

fn px(n: i64) -> TokenValue {
    TokenValue::Dimension { value: Num::from_int(n), unit: "px".to_string() }
}

#[test]
fn test_resolve_tokens() {
    let mut tokens: TokenSet = IndexMap::new();
    put(&mut tokens, "color.primary", s("#ff0000"));
    put(&mut tokens, "color.secondary", TokenValue::Alias("color.primary".to_string()));
    put(&mut tokens, "button.background", TokenValue::Reference("color.secondary".to_string()));

    let resolved = resolve_tokens(&tokens).unwrap();

    assert_eq!(resolved.get("color.primary").unwrap().value, s("#ff0000"));
    assert_eq!(resolved.get("color.secondary").unwrap().value, s("#ff0000"));
    assert_eq!(
        resolved.get("button.background").unwrap().value,
        TokenValue::String(css_var("color.secondary", &CssKeyOptions::default()))
    );
}

#[test]
fn test_cyclic_reference() {
    let mut tokens: TokenSet = IndexMap::new();
    put(&mut tokens, "a", TokenValue::Alias("b".to_string()));
    put(&mut tokens, "b", TokenValue::Alias("a".to_string()));

    let result = resolve_tokens(&tokens);
    assert!(matches!(result, Err(ResolveError::CycleDetected(_))));
}

fn doc_of(v: &serde_json::Value) -> Doc {
    match v {
        serde_json::Value::Null => Doc::Null,
        serde_json::Value::Bool(b) => Doc::Bool(*b),
        serde_json::Value::Number(n) => match n.as_i64() {
            Some(i) => Doc::Number(Num::from_int(i)),
            None => Doc::Number(Num::parse_decimal(&format!("{}", n.as_f64().unwrap())).unwrap()),
        },
        serde_json::Value::String(t) => Doc::Str(t.clone()),
        serde_json::Value::Array(a) => Doc::Array(a.iter().map(doc_of).collect()),
        serde_json::Value::Object(m) => Doc::Object(m.iter().map(|(k, v)| (k.clone(), doc_of(v))).collect()),
    }
}

#[test]
fn test_from_json() {
    let json_data = r##"
    {
      "color.primary": {
        "name": "color.primary",
        "value": "#00ff00"
      },
      "color.accent": {
        "name": "color.accent",
        "value": { "alias": "color.primary" }
      },
      "color.background": {
        "name": "color.background",
        "value": { "reference": "color.primary"  }
      },
      "font": {
        "name": "font",
        "value": {
          "size": "16px",
          "weight": 400,
          "lineHeight": 1.5,
          "color": { "alias": "color.primary" }
        }
      },
      "null": {
        "name": "null",
        "value": null
      },
      "boolean.true": {
        "name": "boolean.true",
        "value": true
      },
      "number.pi": {
        "name": "number.pi",
        "value": 3.14159
      }
    }
    "##;

    let value: serde_json::Value = serde_json::from_str(json_data).unwrap();
    let tokens = decode_token_set(&doc_of(&value)).unwrap();
    let resolved = resolve_tokens(&tokens).unwrap();

    assert_eq!(resolved.get("color.primary").unwrap().value, s("#00ff00"));
    assert_eq!(resolved.get("color.accent").unwrap().value, s("#00ff00"));
    assert_eq!(
        resolved.get("color.background").unwrap().value,
        TokenValue::String(css_var("color.primary", &CssKeyOptions::default()))
    );
    let font = &resolved.get("font").unwrap().value;
    match font {
        TokenValue::Object(members) => {
            let find = |k: &str| members.iter().find(|(name, _)| name == k).map(|(_, v)| v);
            assert_eq!(members.len(), 4);
            assert_eq!(find("size"), Some(&s("16px")));
            assert_eq!(find("weight"), Some(&TokenValue::Number(Num::from_int(400))));
            assert_eq!(find("lineHeight"), Some(&TokenValue::Number(Num::ratio(3, 2))));
            assert_eq!(find("color"), Some(&s("#00ff00")));
        }
        other => panic!("expected an object, got {:?}", other),
    }
    assert_eq!(resolved.get("null").unwrap().value, TokenValue::Null);
    assert_eq!(resolved.get("boolean.true").unwrap().value, TokenValue::Bool(true));
    assert_eq!(
        resolved.get("number.pi").unwrap().value,
        TokenValue::Number(Num::ratio(314159, 100000))
    );
}

#[test]
fn test_resolve_with_prefix_options() {
    let mut tokens: TokenSet = IndexMap::new();
    put(&mut tokens, "color.primary", s("#112233"));
    put(&mut tokens, "button.background", TokenValue::Reference("color.primary".to_string()));

    let opts = CssKeyOptions { prefix: Some("app".into()), ..Default::default() };
    let resolved = resolve_tokens_with_options(&tokens, &opts).unwrap();

    assert_eq!(
        resolved.get("button.background").unwrap().value,
        TokenValue::String(css_var("color.primary", &opts))
    );
    assert_eq!(resolved.get("button.background").unwrap().value, s("var(--app-color-primary)"));
}

#[test]
fn resolving_a_resolved_set_changes_nothing() {
    let mut tokens: TokenSet = IndexMap::new();
    put(&mut tokens, "a", s("x"));
    put(&mut tokens, "b", px(4));
    put(&mut tokens, "c", TokenValue::Object(vec![("k".to_string(), whole(1))]));
    let resolved = resolve_tokens(&tokens).unwrap();
    assert_eq!(resolved, tokens);
    let again = resolve_tokens(&resolved).unwrap();
    assert_eq!(again, resolved);
    let keys: Vec<&String> = again.keys().collect();
    assert_eq!(keys, vec!["a", "b", "c"]);
}

#[test]
fn empty_set_resolves_to_empty_set() {
    let tokens: TokenSet = IndexMap::new();
    assert!(resolve_tokens(&tokens).unwrap().is_empty());
}

#[test]
fn alias_takes_target_value_and_target_comes_first() {
    let mut tokens: TokenSet = IndexMap::new();
    put(&mut tokens, "a", TokenValue::Alias("b".to_string()));
    put(&mut tokens, "b", TokenValue::Alias("c".to_string()));
    put(&mut tokens, "c", px(8));
    let resolved = resolve_tokens(&tokens).unwrap();
    assert_eq!(resolved.get("a").unwrap().value, resolved.get("b").unwrap().value);
    assert_eq!(resolved.get("b").unwrap().value, px(8));
    let keys: Vec<&String> = resolved.keys().collect();
    assert_eq!(keys, vec!["c", "b", "a"]);
    assert_eq!(resolved.get("a").unwrap().name, "a");
}

#[test]
fn alias_without_comment_inherits_target_comment() {
    let mut tokens: TokenSet = IndexMap::new();
    tokens.insert(
        "blue".to_string(),
        Token { name: "blue".to_string(), value: s("#00f"), comment: Some("base blue".to_string()) },
    );
    put(&mut tokens, "brand", TokenValue::Alias("blue".to_string()));
    tokens.insert(
        "accent".to_string(),
        Token {
            name: "accent".to_string(),
            value: TokenValue::Alias("blue".to_string()),
            comment: Some("own".to_string()),
        },
    );
    let resolved = resolve_tokens(&tokens).unwrap();
    assert_eq!(resolved.get("brand").unwrap().comment, Some("base blue".to_string()));
    assert_eq!(resolved.get("accent").unwrap().comment, Some("own".to_string()));
}

#[test]
fn two_token_cycle_names_the_chain() {
    let mut tokens: TokenSet = IndexMap::new();
    put(&mut tokens, "a", TokenValue::Alias("b".to_string()));
    put(&mut tokens, "b", TokenValue::Alias("a".to_string()));
    match resolve_tokens(&tokens) {
        Err(ResolveError::CycleDetected(m)) => assert_eq!(m, "a -> b -> a"),
        other => panic!("expected a cycle, got {:?}", other),
    }
}

#[test]
fn self_alias_is_a_cycle() {
    let mut tokens: TokenSet = IndexMap::new();
    put(&mut tokens, "a", TokenValue::Object(vec![("m".to_string(), TokenValue::Alias("a".to_string()))]));
    assert!(matches!(resolve_tokens(&tokens), Err(ResolveError::CycleDetected(_))));
}

#[test]
fn missing_alias_target_names_both_paths() {
    let mut tokens: TokenSet = IndexMap::new();
    put(&mut tokens, "a", TokenValue::Alias("b".to_string()));
    match resolve_tokens(&tokens) {
        Err(ResolveError::TokenNotFound(m)) => {
            assert!(m.contains('b') && m.contains('a'));
            assert_eq!(m, "b (referenced by a)");
        }
        other => panic!("expected not found, got {:?}", other),
    }
}

#[test]
fn missing_reference_target_fails() {
    let mut tokens: TokenSet = IndexMap::new();
    put(&mut tokens, "r", TokenValue::Reference("nowhere".to_string()));
    match resolve_tokens(&tokens) {
        Err(ResolveError::TokenNotFound(m)) => assert_eq!(m, "nowhere (referenced by r)"),
        other => panic!("expected not found, got {:?}", other),
    }
}

#[test]
fn reference_is_an_indirection_not_the_value() {
    let mut tokens: TokenSet = IndexMap::new();
    put(&mut tokens, "base", s("#112233"));
    put(&mut tokens, "ref", TokenValue::Reference("base".to_string()));
    let resolved = resolve_tokens(&tokens).unwrap();
    let v = &resolved.get("ref").unwrap().value;
    assert_eq!(*v, s("var(--base)"));
    assert_ne!(*v, s("#112233"));
}

#[test]
fn transform_multiplies_dimension() {
    let mut tokens: TokenSet = IndexMap::new();
    put(&mut tokens, "base", px(4));
    put(
        &mut tokens,
        "big",
        TokenValue::Transform(TransformExpr {
            steps: vec![step("alias", vec![TokenValue::Alias("base".to_string())]), step("multiply", vec![whole(4)])],
        }),
    );
    let resolved = resolve_tokens(&tokens).unwrap();
    assert_eq!(resolved.get("big").unwrap().value, px(16));
}

#[test]
fn transform_on_reference_builds_calc() {
    let mut tokens: TokenSet = IndexMap::new();
    put(&mut tokens, "spacing.base", px(4));
    put(&mut tokens, "spacing.base.ref", TokenValue::Reference("spacing.base".to_string()));
    put(
        &mut tokens,
        "spacing.huge",
        TokenValue::Transform(TransformExpr {
            steps: vec![
                step("alias", vec![s("spacing.base.ref")]),
                step("multiply", vec![whole(3)]),
                step("add", vec![px(2)]),
            ],
        }),
    );
    let resolved = resolve_tokens(&tokens).unwrap();
    assert_eq!(
        resolved.get("spacing.huge").unwrap().value,
        s("calc(calc(var(--spacing-base) * 3) + 2px)")
    );
}

#[test]
fn arithmetic_steps_on_numbers() {
    let mut tokens: TokenSet = IndexMap::new();
    put(&mut tokens, "n", whole(10));
    put(
        &mut tokens,
        "m",
        TokenValue::Transform(TransformExpr {
            steps: vec![
                step("alias", vec![s("n")]),
                step("subtract", vec![whole(4)]),
                step("divide", vec![whole(4)]),
                step("add", vec![TokenValue::Number(Num::ratio(1, 2))]),
            ],
        }),
    );
    let resolved = resolve_tokens(&tokens).unwrap();
    assert_eq!(resolved.get("m").unwrap().value, whole(2));
}

#[test]
fn divide_by_zero_fails() {
    let mut tokens: TokenSet = IndexMap::new();
    put(&mut tokens, "n", whole(10));
    put(
        &mut tokens,
        "m",
        TokenValue::Transform(TransformExpr {
            steps: vec![step("alias", vec![s("n")]), step("divide", vec![whole(0)]), step("add", vec![whole(1)])],
        }),
    );
    assert!(matches!(resolve_tokens(&tokens), Err(ResolveError::TransformFailed(_))));
}

#[test]
fn unit_mismatch_fails() {
    let mut tokens: TokenSet = IndexMap::new();
    put(
        &mut tokens,
        "m",
        TokenValue::Transform(TransformExpr {
            steps: vec![
                step("alias", vec![s("d")]),
                step("add", vec![TokenValue::Dimension { value: Num::from_int(1), unit: "rem".to_string() }]),
            ],
        }),
    );
    put(&mut tokens, "d", px(3));
    assert!(matches!(resolve_tokens(&tokens), Err(ResolveError::TransformFailed(_))));
}

#[test]
fn unknown_step_is_invalid() {
    let mut tokens: TokenSet = IndexMap::new();
    put(&mut tokens, "m", TokenValue::Transform(TransformExpr { steps: vec![step("lighten", vec![])] }));
    match resolve_tokens(&tokens) {
        Err(ResolveError::InvalidTransform(m)) => assert_eq!(m, "unknown transform: lighten"),
        other => panic!("expected invalid transform, got {:?}", other),
    }
}

#[test]
fn step_with_wrong_argument_is_invalid() {
    let mut tokens: TokenSet = IndexMap::new();
    put(&mut tokens, "m", TokenValue::Transform(TransformExpr { steps: vec![step("multiply", vec![s("x")])] }));
    assert!(matches!(resolve_tokens(&tokens), Err(ResolveError::InvalidTransform(_))));
}

#[test]
fn first_step_without_input_fails() {
    let mut tokens: TokenSet = IndexMap::new();
    put(&mut tokens, "m", TokenValue::Transform(TransformExpr { steps: vec![step("multiply", vec![whole(2)])] }));
    assert!(matches!(resolve_tokens(&tokens), Err(ResolveError::TransformFailed(_))));
}

#[test]
fn empty_pipeline_is_null() {
    let mut tokens: TokenSet = IndexMap::new();
    put(&mut tokens, "m", TokenValue::Transform(TransformExpr { steps: vec![] }));
    let resolved = resolve_tokens_with_registry(&tokens, &TransformRegistry::default()).unwrap();
    assert_eq!(resolved.get("m").unwrap().value, TokenValue::Null);
}

#[test]
fn scenario_brand_alias() {
    let mut tokens: TokenSet = IndexMap::new();
    put(&mut tokens, "color.blue.50", s("#3500ff"));
    put(&mut tokens, "color.brand.50", TokenValue::Alias("color.blue.50".to_string()));
    let resolved = resolve_tokens(&tokens).unwrap();
    assert_eq!(resolved.get("color.brand.50").unwrap().value, s("#3500ff"));
    let css = substrate_tokens::output::to_css_stylesheet(&resolved, ":root", None);
    assert!(css.contains("  --color-brand-50: #3500ff;\n"));
}

#[test]
fn cycle_reached_through_an_alias_names_the_whole_chain() {
    let mut tokens: TokenSet = IndexMap::new();
    put(&mut tokens, "x", TokenValue::Alias("a".to_string()));
    put(&mut tokens, "a", TokenValue::Alias("b".to_string()));
    put(&mut tokens, "b", TokenValue::Alias("a".to_string()));
    match resolve_tokens(&tokens) {
        Err(ResolveError::CycleDetected(m)) => assert_eq!(m, "x -> a -> b -> a"),
        other => panic!("expected a cycle, got {:?}", other),
    }
}

#[test]
fn alias_step_with_bad_argument_is_invalid() {
    let mut tokens: TokenSet = IndexMap::new();
    put(&mut tokens, "m", TokenValue::Transform(TransformExpr { steps: vec![step("alias", vec![whole(3)])] }));
    assert!(matches!(resolve_tokens(&tokens), Err(ResolveError::InvalidTransform(_))));
}
