use substrate_tokens::css_var::{css_var, make_css_custom_property_key, CssKeyOptions};

#[test]
fn default_simple_dot_separated() {
    let opts = CssKeyOptions::default();
    let key = make_css_custom_property_key("color.primary.background", &opts);
    assert_eq!(key, "--color-primary-background");
}

#[test]
fn default_slash_and_spaces() {
    let opts = CssKeyOptions::default();
    assert_eq!(
        make_css_custom_property_key("color/theme / primary 500", &opts),
        "--color-theme-primary-500"
    );
}

#[test]
fn preserves_leading_dashes_once() {
    let opts = CssKeyOptions::default();
    assert_eq!(
        make_css_custom_property_key("--color.primary-500", &opts),
        "--color-primary-500"
    );
}

#[test]
fn camel_and_pascal_case_boundaries() {
    let opts = CssKeyOptions::default();
    assert_eq!(
        make_css_custom_property_key("Color.PrimaryAccent", &opts),
        "--color-primary-accent"
    );
    assert_eq!(
        make_css_custom_property_key("borderRadius.sm", &opts),
        "--border-radius-sm"
    );
}

#[test]
fn custom_separator_underscore() {
    let opts = CssKeyOptions {
        prefix: None,
        separator: '_',
        lowercase: true,
    };
    assert_eq!(
        make_css_custom_property_key("color.primary.500", &opts),
        "--color_primary_500"
    );
}

#[test]
fn with_prefix_namespace() {
    let opts = CssKeyOptions {
        prefix: Some("dark".to_string()),
        ..Default::default()
    };
    assert_eq!(
        make_css_custom_property_key("color.primary.500", &opts),
        "--dark-color-primary-500"
    );
}

#[test]
fn complex_input_sanitization_and_collapse() {
    let opts = CssKeyOptions::default();
    assert_eq!(
        make_css_custom_property_key("layout..grid   cols", &opts),
        "--layout-grid-cols"
    );
    assert_eq!(
        make_css_custom_property_key("color---primary", &opts),
        "--color-primary"
    );
    assert_eq!(
        make_css_custom_property_key("size(2x)@md", &opts),
        "--size-2x-md"
    );
}

#[test]
fn css_var_wrapper() {
    let opts = CssKeyOptions {
        prefix: Some("theme".to_string()),
        ..Default::default()
    };
    assert_eq!(
        css_var("Color.Primary.500", &opts),
        "var(--theme-color-primary-500)"
    );
}

#[test]
fn css_var_default_reference_style() {
    let opts = CssKeyOptions::default();
    assert_eq!(css_var("a.b.c", &opts), "var(--a-b-c)");
    assert_eq!(css_var("button/Primary.sizeLg", &opts), "var(--button-primary-size-lg)");
}

#[test]
fn css_var_with_prefix_reference_style() {
    let opts = CssKeyOptions { prefix: Some("app".into()), ..Default::default() };
    assert_eq!(css_var("a.b.c", &opts), "var(--app-a-b-c)");
    assert_eq!(css_var("Color.Primary", &opts), "var(--app-color-primary)");
}

#[test]
fn empty_like_inputs_do_not_break() {
    let opts = CssKeyOptions::default();
    assert_eq!(make_css_custom_property_key("", &opts), "--");
    assert_eq!(make_css_custom_property_key("--", &opts), "--");
    assert_eq!(make_css_custom_property_key("   ", &opts), "--");
}

#[test]
fn prefix_is_normalized() {
    let opts = CssKeyOptions {
        prefix: Some("Dark Mode".into()),
        ..Default::default()
    };
    assert_eq!(
        make_css_custom_property_key("Color.Primary", &opts),
        "--dark-mode-color-primary"
    );
}

#[test]
fn mixed_separators_and_camelcase() {
    let opts = CssKeyOptions::default();
    assert_eq!(
        make_css_custom_property_key("button/PrimaryLabel.sizeLg", &opts),
        "--button-primary-label-size-lg"
    );
}

#[test]
fn lowercase_off_keeps_case_and_splits_camel() {
    let opts = CssKeyOptions { prefix: None, separator: '-', lowercase: false };
    assert_eq!(make_css_custom_property_key("Color.PrimaryAccent", &opts), "--Color-Primary-Accent");
}

#[test]
fn unicode_whitespace_is_a_delimiter() {
    let opts = CssKeyOptions::default();
    assert_eq!(make_css_custom_property_key("a\u{3000}b\tc", &opts), "--a-b-c");
    assert_eq!(make_css_custom_property_key(" \u{a0}--x.y", &opts), "--x-y");
}

#[test]
fn normalization_is_idempotent_without_prefix() {
    let opts = CssKeyOptions::default();
    let once = make_css_custom_property_key("button/PrimaryLabel.sizeLg", &opts);
    let twice = make_css_custom_property_key(&once, &opts);
    assert_eq!(once, twice);
}

#[test]
fn empty_prefix_adds_nothing() {
    let opts = CssKeyOptions { prefix: Some("".into()), ..Default::default() };
    assert_eq!(make_css_custom_property_key("a.b", &opts), "--a-b");
    let opts = CssKeyOptions { prefix: Some("app".into()), ..Default::default() };
    assert_eq!(make_css_custom_property_key("", &opts), "--app");
}
