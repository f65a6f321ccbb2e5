use dioxus_in_bevy::attr;
use dioxus_in_bevy::convert_attribute;
use dioxus_in_bevy::AttributeKind;
use dioxus_in_bevy::AttributeValue;
use dioxus_in_bevy::CoreError;

#[test]
fn text_value_converts_for_text_mutator() {
    let value = AttributeValue::Text(String::from("hello"));
    let converted = convert_attribute(&value, &AttributeKind::Text);
    assert_eq!(converted, Ok(AttributeValue::Text(String::from("hello"))));
}

#[test]
fn float_value_for_text_mutator_fails() {
    let value = AttributeValue::Float(2.5f64.to_bits());
    let converted = convert_attribute(&value, &AttributeKind::Text);
    assert_eq!(converted, Err(CoreError::AttributeTypeMismatch));
}

#[test]
fn no_implicit_numeric_coercion() {
    let int_value = AttributeValue::Int(3);
    assert_eq!(
        convert_attribute(&int_value, &AttributeKind::Float),
        Err(CoreError::AttributeTypeMismatch)
    );
    let float_value = AttributeValue::Float(3.0f64.to_bits());
    assert_eq!(
        convert_attribute(&float_value, &AttributeKind::Int),
        Err(CoreError::AttributeTypeMismatch)
    );
    assert_eq!(convert_attribute(&int_value, &AttributeKind::Int), Ok(AttributeValue::Int(3)));
}

#[test]
fn bool_value_converts_for_bool_mutator() {
    let value = AttributeValue::Bool(true);
    assert_eq!(convert_attribute(&value, &AttributeKind::Bool), Ok(AttributeValue::Bool(true)));
    assert_eq!(
        convert_attribute(&value, &AttributeKind::Text),
        Err(CoreError::AttributeTypeMismatch)
    );
}

#[test]
fn opaque_value_checks_type_identity() {
    let value = attr(7, 99);
    assert_eq!(value, AttributeValue::Any { type_tag: 7, handle: 99 });
    assert_eq!(
        convert_attribute(&value, &AttributeKind::Any(7)),
        Ok(AttributeValue::Any { type_tag: 7, handle: 99 })
    );
    assert_eq!(
        convert_attribute(&value, &AttributeKind::Any(8)),
        Err(CoreError::AttributeTypeMismatch)
    );
}

#[test]
fn listener_value_matches_no_mutator_category() {
    let value = AttributeValue::Listener(5);
    assert_eq!(
        convert_attribute(&value, &AttributeKind::Text),
        Err(CoreError::AttributeTypeMismatch)
    );
    assert_eq!(
        convert_attribute(&value, &AttributeKind::Any(0)),
        Err(CoreError::AttributeTypeMismatch)
    );
}
