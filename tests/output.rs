use indexmap::IndexMap;
use substrate_tokens::css_var::CssKeyOptions;
use substrate_tokens::num::{fmt_num, Num};
use substrate_tokens::output::{
    merge_token_sets, to_css_custom_properties, to_css_custom_properties_with_options,
    to_css_stylesheet, to_resolved_string_map, token_value_to_string,
};
use substrate_tokens::palette::{tonal_steps, CSSBaseToken, CSSKeyToken, TokenKind, TokenType};
use substrate_tokens::tokenset::TokenSet;
use substrate_tokens::utils::hyperlink;
use substrate_tokens::value::{Token, TokenValue, TransformExpr, TransformStep};

fn token(name: &str, value: TokenValue) -> Token {
    Token { name: name.to_string(), value, comment: None }
}

fn whole(n: i64) -> TokenValue {
    TokenValue::Number(Num::from_int(n))
}

fn s(text: &str) -> TokenValue {
    TokenValue::String(text.to_string())
}

#[test]
fn numbers_are_written_without_spurious_fraction() {
    assert_eq!(fmt_num(&Num::from_int(4)), "4");
    assert_eq!(fmt_num(&Num::from_int(-12)), "-12");
    assert_eq!(fmt_num(&Num::ratio(8, 2)), "4");
    assert_eq!(fmt_num(&Num::ratio(3, 2)), "1.5");
    assert_eq!(fmt_num(&Num::ratio(-1, 2)), "-0.5");
    assert_eq!(fmt_num(&Num::ratio(314159, 100000)), "3.14159");
    assert_eq!(fmt_num(&Num::ratio(1, 3)), "0.3333333333333333");
    assert_eq!(fmt_num(&Num::parse_decimal("0.30000000000000004").unwrap()), "0.30000000000000004");
    assert_eq!(fmt_num(&Num::ratio(1, 1024)), "0.0009765625");
    assert_eq!(fmt_num(&Num::from_int(0)), "0");
}

#[test]
fn number_arithmetic_is_exact() {
    let a = Num::ratio(1, 3);
    let b = Num::ratio(2, 3);
    assert_eq!(a.checked_add(&b).unwrap(), Num::from_int(1));
    assert_eq!(b.checked_sub(&a).unwrap(), a);
    assert_eq!(a.checked_mul(&Num::from_int(6)).unwrap(), Num::from_int(2));
    assert_eq!(Num::from_int(1).checked_div(&Num::from_int(-4)).unwrap(), Num::ratio(-1, 4));
    assert!(Num::from_int(i64::MAX).checked_add(&Num::from_int(1)).is_none());
    assert!(Num::from_int(i64::MAX).checked_mul(&Num::from_int(2)).is_none());
}

#[test]
fn values_as_text() {
    assert_eq!(token_value_to_string(&s("abc")), "abc");
    assert_eq!(token_value_to_string(&TokenValue::Color("#fff".to_string())), "#fff");
    assert_eq!(token_value_to_string(&whole(4)), "4");
    assert_eq!(token_value_to_string(&TokenValue::Bool(true)), "true");
    assert_eq!(token_value_to_string(&TokenValue::Bool(false)), "false");
    assert_eq!(token_value_to_string(&TokenValue::Null), "null");
    assert_eq!(
        token_value_to_string(&TokenValue::Dimension { value: Num::ratio(3, 2), unit: "rem".to_string() }),
        "1.5rem"
    );
    assert_eq!(token_value_to_string(&TokenValue::Alias("a.b".to_string())), "alias(a.b)");
    assert_eq!(token_value_to_string(&TokenValue::Reference("a.b".to_string())), "reference(a.b)");
    assert_eq!(
        token_value_to_string(&TokenValue::Transform(TransformExpr { steps: vec![] })),
        "unresolved-transform"
    );
}

#[test]
fn objects_are_written_as_compact_json() {
    let v = TokenValue::Object(vec![
        ("size".to_string(), s("16px")),
        ("weight".to_string(), whole(400)),
        ("lineHeight".to_string(), TokenValue::Number(Num::ratio(3, 2))),
        ("quote".to_string(), s("a\"b\\c\n")),
        ("dim".to_string(), TokenValue::Dimension { value: Num::from_int(4), unit: "px".to_string() }),
        ("none".to_string(), TokenValue::Null),
        (
            "t".to_string(),
            TokenValue::Transform(TransformExpr {
                steps: vec![TransformStep { kind: "multiply".to_string(), args: vec![whole(2)] }],
            }),
        ),
    ]);
    assert_eq!(
        token_value_to_string(&v),
        "{\"size\":\"16px\",\"weight\":400.0,\"lineHeight\":1.5,\"quote\":\"a\\\"b\\\\c\\n\",\
\"dim\":{\"value\":4.0,\"unit\":\"px\"},\"none\":null,\"t\":{\"steps\":[{\"type\":\"multiply\",\"args\":[2.0]}]}}"
    );
    assert_eq!(token_value_to_string(&TokenValue::Object(vec![])), "{}");
    assert_eq!(
        token_value_to_string(&TokenValue::Object(vec![("c".to_string(), s("\u{1}"))])),
        "{\"c\":\"\\u0001\"}"
    );
}

fn sample() -> TokenSet {
    let mut set: TokenSet = IndexMap::new();
    set.insert("color.brand.50".to_string(), token("color.brand.50", s("#3500ff")));
    set.insert("spacing.base".to_string(), token("spacing.base", TokenValue::Dimension { value: Num::from_int(4), unit: "px".to_string() }));
    set
}

#[test]
fn css_properties_use_output_identifiers() {
    let props = to_css_custom_properties(&sample());
    let pairs: Vec<(&String, &String)> = props.iter().collect();
    assert_eq!(pairs.len(), 2);
    assert_eq!(pairs[0], (&"--color-brand-50".to_string(), &"#3500ff".to_string()));
    assert_eq!(pairs[1], (&"--spacing-base".to_string(), &"4px".to_string()));
    let opts = CssKeyOptions { prefix: Some("Dark".into()), separator: '_', lowercase: true };
    let props = to_css_custom_properties_with_options(&sample(), &opts);
    assert_eq!(props.get("--dark_color_brand_50").unwrap(), "#3500ff");
}

#[test]
fn colliding_names_keep_the_last_value() {
    let mut set: TokenSet = IndexMap::new();
    set.insert("a.b".to_string(), token("a.b", s("one")));
    set.insert("a-b".to_string(), token("a-b", s("two")));
    let props = to_css_custom_properties(&set);
    assert_eq!(props.len(), 1);
    assert_eq!(props.get("--a-b").unwrap(), "two");
}

#[test]
fn stylesheet_wraps_declarations() {
    assert_eq!(
        to_css_stylesheet(&sample(), ":root", None),
        ":root {\n  --color-brand-50: #3500ff;\n  --spacing-base: 4px;\n}"
    );
    assert_eq!(
        to_css_stylesheet(&sample(), ".dark", Some("ds")),
        ".dark {\n  --ds-color-brand-50: #3500ff;\n  --ds-spacing-base: 4px;\n}"
    );
    let empty: TokenSet = IndexMap::new();
    assert_eq!(to_css_stylesheet(&empty, ":root", Some("")), ":root {\n}");
}

#[test]
fn path_string_map_keeps_paths() {
    let map = to_resolved_string_map(&sample());
    let pairs: Vec<(&String, &String)> = map.iter().collect();
    assert_eq!(pairs[0], (&"color.brand.50".to_string(), &"#3500ff".to_string()));
    assert_eq!(pairs[1], (&"spacing.base".to_string(), &"4px".to_string()));
}

#[test]
fn merge_overrides_in_place_and_appends_new_keys() {
    let mut base: TokenSet = IndexMap::new();
    base.insert("a".to_string(), token("a", whole(1)));
    base.insert("b".to_string(), token("b", whole(2)));
    let mut over: TokenSet = IndexMap::new();
    over.insert("b".to_string(), token("b", whole(3)));
    over.insert("c".to_string(), token("c", whole(4)));
    let merged = merge_token_sets(&base, &over);
    let keys: Vec<&String> = merged.keys().collect();
    assert_eq!(keys, vec!["a", "b", "c"]);
    assert_eq!(merged.get("a").unwrap().value, whole(1));
    assert_eq!(merged.get("b").unwrap().value, whole(3));
    assert_eq!(merged.get("c").unwrap().value, whole(4));
}

#[test]
fn merge_does_not_deep_merge_objects() {
    let mut base: TokenSet = IndexMap::new();
    base.insert("o".to_string(), token("o", TokenValue::Object(vec![("x".to_string(), whole(1)), ("y".to_string(), whole(2))])));
    let mut over: TokenSet = IndexMap::new();
    over.insert("o".to_string(), token("o", TokenValue::Object(vec![("x".to_string(), whole(9))])));
    let merged = merge_token_sets(&base, &over);
    assert_eq!(merged.get("o").unwrap().value, TokenValue::Object(vec![("x".to_string(), whole(9))]));
}

#[test]
fn hyperlink_wraps_text_in_osc8() {
    assert_eq!(
        hyperlink("https://example.com", "site"),
        "\x1b]8;;https://example.com\x1b\\site\x1b]8;;\x1b\\"
    );
}

#[test]
fn palette_items() {
    assert_eq!(tonal_steps(), [5, 10, 20, 30, 40, 50, 60, 70, 80, 90, 95]);
    assert_eq!(TokenType::Color.as_str(), "COLOR_TOKEN");
    assert_eq!(TokenType::Base.as_str(), "COLOR_BASE");
    assert_eq!(TokenType::Key.as_str(), "COLOR_KEY");
    let k = CSSKeyToken::new(None, "blue".to_string(), 40);
    assert_eq!(k.value, 40);
    let b = CSSBaseToken::new(Some("app".to_string()), "blue".to_string(), "x".to_string());
    assert_eq!(b.palette_name, "blue");
    assert_eq!(TokenKind::default(), TokenKind::Token);
}

#[test]
fn decimals_parse_exactly() {
    assert_eq!(Num::parse_decimal("3.14159"), Some(Num::ratio(314159, 100000)));
    assert_eq!(Num::parse_decimal("-0.5"), Some(Num::ratio(-1, 2)));
    assert_eq!(Num::parse_decimal("400"), Some(Num::from_int(400)));
    assert_eq!(fmt_num(&Num::parse_decimal("1.50").unwrap()), "1.5");
    assert_eq!(Num::parse_decimal("-9223372036854775808"), Some(Num::from_int(i64::MIN)));
    assert_eq!(Num::parse_decimal("9223372036854775808"), None);
    assert_eq!(Num::parse_decimal("1."), None);
    assert_eq!(Num::parse_decimal(".5"), None);
    assert_eq!(Num::parse_decimal("1e3"), None);
    assert_eq!(Num::parse_decimal(""), None);
    assert_eq!(Num::parse_decimal("-"), None);
    assert_eq!(Num::parse_decimal("0.00000000000000000001"), None);
}
