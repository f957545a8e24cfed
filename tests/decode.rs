use substrate_tokens::doc::{decode_token_set, decode_value, Doc};
use substrate_tokens::num::Num;
use substrate_tokens::value::{TokenValue, TransformExpr, TransformStep};

fn obj(members: Vec<(&str, Doc)>) -> Doc {
    Doc::Object(members.into_iter().map(|(k, v)| (k.to_string(), v)).collect())
}

fn text(s: &str) -> Doc {
    Doc::Str(s.to_string())
}

#[test]
fn literals_decode_to_themselves() {
    assert_eq!(decode_value(&Doc::Null), Some(TokenValue::Null));
    assert_eq!(decode_value(&Doc::Bool(true)), Some(TokenValue::Bool(true)));
    assert_eq!(decode_value(&text("#fff")), Some(TokenValue::String("#fff".to_string())));
    assert_eq!(decode_value(&Doc::Number(Num::from_int(3))), Some(TokenValue::Number(Num::from_int(3))));
}

#[test]
fn alias_wins_over_other_shapes() {
    let d = obj(vec![("reference", text("x")), ("alias", text("color.primary"))]);
    assert_eq!(decode_value(&d), Some(TokenValue::Alias("color.primary".to_string())));
    let d = obj(vec![("reference", text("color.primary")), ("steps", Doc::Array(vec![]))]);
    assert_eq!(decode_value(&d), Some(TokenValue::Reference("color.primary".to_string())));
    assert_eq!(decode_value(&obj(vec![("alias", Doc::Null)])), None);
}

#[test]
fn dimension_and_transform_shapes() {
    let d = obj(vec![("type", text("dimension")), ("value", Doc::Number(Num::from_int(4))), ("unit", text("px"))]);
    assert_eq!(
        decode_value(&d),
        Some(TokenValue::Dimension { value: Num::from_int(4), unit: "px".to_string() })
    );
    let d = obj(vec![(
        "steps",
        Doc::Array(vec![
            obj(vec![("type", text("alias")), ("args", Doc::Array(vec![text("spacing.base")]))]),
            obj(vec![("type", text("multiply")), ("args", Doc::Array(vec![Doc::Number(Num::from_int(4))]))]),
        ]),
    )]);
    assert_eq!(
        decode_value(&d),
        Some(TokenValue::Transform(TransformExpr {
            steps: vec![
                TransformStep { kind: "alias".to_string(), args: vec![TokenValue::String("spacing.base".to_string())] },
                TransformStep { kind: "multiply".to_string(), args: vec![TokenValue::Number(Num::from_int(4))] },
            ],
        }))
    );
    assert_eq!(decode_value(&obj(vec![("steps", Doc::Array(vec![text("bad")]))])), None);
}

#[test]
fn arrays_become_objects_keyed_by_position() {
    let d = Doc::Array(vec![text("a"), Doc::Bool(false)]);
    assert_eq!(
        decode_value(&d),
        Some(TokenValue::Object(vec![
            ("0".to_string(), TokenValue::String("a".to_string())),
            ("1".to_string(), TokenValue::Bool(false)),
        ]))
    );
}

#[test]
fn token_documents_decode_to_sets() {
    let d = obj(vec![
        ("color.primary", obj(vec![("name", text("color.primary")), ("value", text("#00ff00"))])),
        ("color.accent", obj(vec![("value", obj(vec![("alias", text("color.primary"))])), ("comment", text("accent"))])),
    ]);
    let set = decode_token_set(&d).unwrap();
    let keys: Vec<&String> = set.keys().collect();
    assert_eq!(keys, vec!["color.primary", "color.accent"]);
    let accent = set.get("color.accent").unwrap();
    assert_eq!(accent.name, "color.accent");
    assert_eq!(accent.comment, Some("accent".to_string()));
    assert_eq!(accent.value, TokenValue::Alias("color.primary".to_string()));
    assert!(decode_token_set(&obj(vec![("x", obj(vec![("name", text("x"))]))])).is_none());
    assert!(decode_token_set(&text("nope")).is_none());
}
