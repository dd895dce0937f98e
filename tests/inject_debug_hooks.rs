use slint_lowering::inject_debug_hooks::{inject_debug_hooks, property_id};
use slint_lowering::object_tree::{
    Binding, BuiltinElement, Component, Document, Element, ElementDebugInfo, ElementType,
    Expression,
};

fn element(id: &str, children: Vec<usize>, comp: usize) -> Element {
    Element {
        id: id.to_string(),
        base_type: ElementType::Builtin(BuiltinElement::Item),
        bindings: Vec::new(),
        property_declarations: Vec::new(),
        children,
        repeated: false,
        enclosing_component: comp,
        has_popup_child: false,
        debug: vec![ElementDebugInfo { element_id: 0 }],
    }
}

fn component(root: usize) -> Component {
    Component { id: String::new(), root_element: root, parent_element: None, inherits_popup_window: false, popup_windows: Vec::new() }
}

/// Component 0: root 0 with children 1 and 2; 1 has child 3. Element 4 is
/// the root of an unused component 1.
fn doc() -> Document {
    let mut els = vec![
        element("root", vec![1, 2], 0),
        element("a", vec![3], 0),
        element("b", vec![], 0),
        element("c", vec![], 0),
        element("unused", vec![], 1),
    ];
    els[0].bindings.push(Binding { name: "width".to_string(), expression: Expression::NumberLiteral(10) });
    els[3].bindings.push(Binding { name: "text".to_string(), expression: Expression::StringLiteral("hi".to_string()) });
    els[4].bindings.push(Binding { name: "x".to_string(), expression: Expression::NumberLiteral(1) });
    Document { elements: els, components: vec![component(0), component(4)], used_components: vec![0] }
}

fn hook_id(e: &Expression) -> Option<&str> {
    match e {
        Expression::DebugHook { id, .. } => Some(id.as_str()),
        _ => None,
    }
}

#[test]
fn property_id_format() {
    assert_eq!(property_id(12, &"width".to_string()), "?12-width");
    assert_eq!(property_id(1, &"x".to_string()), "?1-x");
    assert_eq!(property_id(0, &"".to_string()), "?0-");
    assert_eq!(property_id(u64::MAX, &"a-b".to_string()), "?18446744073709551615-a-b");
}

#[test]
fn elements_numbered_in_pre_order() {
    let mut d = doc();
    inject_debug_hooks(&mut d, true);
    let ids: Vec<u64> = d.elements.iter().map(|e| e.debug[0].element_id).collect();
    assert_eq!(ids, vec![1, 2, 4, 3, 0]);
    assert_eq!(hook_id(&d.elements[0].bindings[0].expression), Some("?1-width"));
    assert_eq!(hook_id(&d.elements[3].bindings[0].expression), Some("?3-text"));
    match &d.elements[0].bindings[0].expression {
        Expression::DebugHook { expression, .. } => assert!(matches!(**expression, Expression::NumberLiteral(10))),
        _ => panic!("hook expected"),
    }
    assert!(matches!(d.elements[4].bindings[0].expression, Expression::NumberLiteral(1)));
}

#[test]
fn injecting_twice_is_injecting_once() {
    let mut d = doc();
    inject_debug_hooks(&mut d, true);
    let once = format!("{:?}", d);
    inject_debug_hooks(&mut d, true);
    assert_eq!(format!("{:?}", d), once);
    match &d.elements[0].bindings[0].expression {
        Expression::DebugHook { expression, .. } => assert!(!matches!(**expression, Expression::DebugHook { .. })),
        _ => panic!("hook expected"),
    }
}

#[test]
fn existing_hook_is_kept() {
    let mut d = doc();
    d.elements[2].bindings.push(Binding {
        name: "h".to_string(),
        expression: Expression::DebugHook { expression: Box::new(Expression::BoolLiteral(true)), id: "?99-h".to_string() },
    });
    inject_debug_hooks(&mut d, true);
    assert_eq!(hook_id(&d.elements[2].bindings[0].expression), Some("?99-h"));
    assert_eq!(d.elements[2].debug[0].element_id, 4);
}

#[test]
fn disabled_pass_does_nothing() {
    let mut d = doc();
    let before = format!("{:?}", d);
    inject_debug_hooks(&mut d, false);
    assert_eq!(format!("{:?}", d), before);
}

#[test]
fn sub_components_of_repeated_elements_are_numbered() {
    let mut d = doc();
    d.elements[2].repeated = true;
    d.elements[2].base_type = ElementType::Component(1);
    d.components[1].parent_element = Some(2);
    inject_debug_hooks(&mut d, true);
    let ids: Vec<u64> = d.elements.iter().map(|e| e.debug[0].element_id).collect();
    assert_eq!(ids, vec![1, 2, 4, 3, 5]);
    assert_eq!(hook_id(&d.elements[4].bindings[0].expression), Some("?5-x"));
}
