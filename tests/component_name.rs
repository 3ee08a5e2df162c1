use sauron_core::extract_simple_struct_name;
use sauron_core::component::{prefix_class_of, selector_ns_of, selectors_ns_of};

// The names below are those the compiler gives the types of the tests:
// the module path, the name, and any generic arguments.

#[test]
fn test_extract_component_name() {
    let name = extract_simple_struct_name(
        "component_name::test_extract_component_name::AwesomeEditor",
    );
    println!("name: {name}");
    assert_eq!("AwesomeEditor", name);
}

#[test]
fn test_name_with_generics() {
    let name = extract_simple_struct_name(
        "component_name::test_name_with_generics::ComplexEditor<component_name::test_name_with_generics::Xmsg>",
    );
    println!("name: {name}");
    assert_eq!("ComplexEditor", name);
}

#[test]
fn test_name_with_2_generics() {
    let name = extract_simple_struct_name(
        "component_name::test_name_with_2_generics::ComplexEditor<component_name::test_name_with_2_generics::Msg, component_name::test_name_with_2_generics::Xmsg>",
    );
    println!("name: {name}");
    assert_eq!("ComplexEditor", name);
}

#[test]
fn simple_name_from_written_paths() {
    assert_eq!("Editor", extract_simple_struct_name("app::widgets::Editor<app::Msg>"));
    assert_eq!("Plain", extract_simple_struct_name("Plain"));
    assert_eq!("b", extract_simple_struct_name("a:::b"));
    assert_eq!("", extract_simple_struct_name(""));
}

#[test]
fn class_prefix_and_selectors() {
    assert_eq!("Editor__title", prefix_class_of("Editor", "title"));
    assert_eq!("Editor", prefix_class_of("Editor", ""));
    assert_eq!(".Editor__title", selector_ns_of("Editor", "title"));
    assert_eq!(".Editor", selector_ns_of("Editor", ""));
    let classes = vec!["a".to_string(), "".to_string(), "b".to_string()];
    assert_eq!(".Editor__a .Editor .Editor__b", selectors_ns_of("Editor", &classes));
    assert_eq!("", selectors_ns_of("Editor", &vec![]));
}

use sauron_core::component::{class_attribute_of, classes_attribute_of};
use sauron_core::AttributeValue;

fn simple_values(values: &[AttributeValue]) -> Vec<String> {
    values
        .iter()
        .map(|v| match v {
            AttributeValue::Simple(s) => s.clone(),
            _ => panic!("expected a simple value"),
        })
        .collect()
}

#[test]
fn class_attributes_by_component_name() {
    let a = class_attribute_of("Editor", "");
    assert_eq!(simple_values(&a.value), vec!["Editor"]);
    let on = classes_attribute_of(
        "Editor",
        &vec![("on".to_string(), true), ("off".to_string(), false), ("x".to_string(), true)],
    );
    assert_eq!(simple_values(&on.value), vec!["Editor__on", "Editor__x"]);
    let b = classes_attribute_of("Editor", &vec![]);
    assert_eq!(b.name, "class");
    assert!(b.value.is_empty());
}
