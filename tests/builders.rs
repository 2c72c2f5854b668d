use sauron_core::builders::{
    attr, attrs_flag, checked, classes, classes_flag, disabled, empty_attr, inner_html, style, styles,
    styles_flag, styles_values,
};
use sauron_core::node::{Attribute, AttributeValue, Style};

fn plain(name: &str, value: &str) -> Attribute {
    Attribute {
        namespace: None,
        name: name.to_string(),
        values: vec![AttributeValue::Plain(value.to_string())],
    }
}

fn decl(name: &str, value: &str) -> Style {
    Style { name: name.to_string(), value: value.to_string() }
}

#[test]
fn attr_builds_plain_value() {
    assert_eq!(attr("title", "hello"), plain("title", "hello"));
}

#[test]
fn empty_attr_is_empty_marker() {
    let a = empty_attr();
    assert_eq!(a.name, "");
    assert_eq!(a.values, vec![AttributeValue::Empty]);
}

#[test]
fn checked_when_set_and_not() {
    assert_eq!(checked(true), plain("checked", "checked"));
    assert_eq!(checked(false), empty_attr());
}

#[test]
fn disabled_when_set_and_not() {
    assert_eq!(disabled(true), plain("disabled", "true"));
    assert_eq!(disabled(false), empty_attr());
}

#[test]
fn inner_html_is_side_effecting() {
    let a = inner_html("<b>x</b>");
    assert_eq!(a.name, "inner_html");
    assert_eq!(a.values.len(), 1);
    assert!(matches!(&a.values[0], AttributeValue::FunctionCall(h) if h == "<b>x</b>"));
    // a side-effecting value is never equal to another one, nor to itself
    assert!(a.values[0] != a.values[0].clone());
}

#[test]
fn style_single_declaration() {
    let a = style("display", "flex");
    assert_eq!(a.name, "style");
    assert_eq!(a.values, vec![AttributeValue::Styles(vec![decl("display", "flex")])]);
}

#[test]
fn styles_keeps_order() {
    let a = styles(&[("display", "flex"), ("flex-direction", "row")]);
    assert_eq!(a.name, "style");
    assert_eq!(
        a.values,
        vec![AttributeValue::Styles(vec![decl("display", "flex"), decl("flex-direction", "row")])]
    );
    assert_eq!(styles_values(&[("display", "flex"), ("flex-direction", "row")]), a);
}

#[test]
fn styles_of_nothing_is_empty_list() {
    let a = styles(&[]);
    assert_eq!(a.values, vec![AttributeValue::Styles(vec![])]);
}

#[test]
fn styles_flag_keeps_set_ones() {
    let active = true;
    let a = styles_flag(&[("display", "block", active), ("display", "none", !active)]);
    assert_eq!(a.values, vec![AttributeValue::Styles(vec![decl("display", "block")])]);
}

#[test]
fn classes_one_value_each() {
    let a = classes(&["dashed", "error"]);
    assert_eq!(a.name, "class");
    assert_eq!(
        a.values,
        vec![AttributeValue::Plain("dashed".to_string()), AttributeValue::Plain("error".to_string())]
    );
}

#[test]
fn classes_flag_keeps_set_ones() {
    let a = classes_flag(&[("dashed", false), ("error", true), ("big", true)]);
    assert_eq!(a, classes(&["error", "big"]));
    assert_eq!(classes_flag(&[("dashed", false)]).values, vec![]);
}

#[test]
fn attrs_flag_keeps_set_ones() {
    let r = attrs_flag(&[("checked", "checked", true), ("hidden", "true", false)]);
    assert_eq!(r, vec![plain("checked", "checked")]);
    assert_eq!(attrs_flag(&[("hidden", "true", false)]), vec![]);
}
