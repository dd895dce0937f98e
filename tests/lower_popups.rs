use slint_lowering::diagnostics::{BuildDiagnostics, DiagnosticKind, Severity};
use slint_lowering::lower_popups::{lower_popup_window, lower_popups};
use slint_lowering::object_tree::{
    Binding, BuiltinElement, Component, Document, Element, ElementDebugInfo, ElementType,
    Expression, NamedReference, Type,
};

fn element(id: &str, base: ElementType, children: Vec<usize>, comp: usize) -> Element {
    Element {
        id: id.to_string(),
        base_type: base,
        bindings: Vec::new(),
        property_declarations: Vec::new(),
        children,
        repeated: false,
        enclosing_component: comp,
        has_popup_child: false,
        debug: vec![ElementDebugInfo { element_id: 0 }],
    }
}

fn component(id: &str, root: usize) -> Component {
    Component {
        id: id.to_string(),
        root_element: root,
        parent_element: None,
        inherits_popup_window: false,
        popup_windows: Vec::new(),
    }
}

fn bind(e: &mut Element, name: &str, expr: Expression) {
    e.bindings.push(Binding { name: name.to_string(), expression: expr });
}

fn builtin(b: BuiltinElement) -> ElementType {
    ElementType::Builtin(b)
}

/// Component 0: root (0) with children rect (1) and popup "pop" (2); the
/// popup holds a text (3).
fn simple_doc(parent_base: ElementType) -> Document {
    let root = element("root", parent_base, vec![1, 2], 0);
    let rect = element("rect", builtin(BuiltinElement::Item), vec![], 0);
    let pop = element("pop", builtin(BuiltinElement::PopupWindow), vec![3], 0);
    let text = element("text", builtin(BuiltinElement::Item), vec![], 0);
    Document {
        elements: vec![root, rect, pop, text],
        components: vec![component("Main", 0)],
        used_components: vec![0],
    }
}

fn binding<'a>(e: &'a Element, name: &str) -> Option<&'a Expression> {
    e.bindings.iter().find(|b| b.name == name).map(|b| &b.expression)
}

#[test]
fn popup_is_detached_and_recorded() {
    let mut doc = simple_doc(builtin(BuiltinElement::Item));
    let mut diag = BuildDiagnostics::new();
    lower_popup_window(&mut doc, 2, Some(0), &mut diag);
    assert_eq!(doc.elements[0].children, vec![1]);
    assert!(doc.elements[0].has_popup_child);
    assert_eq!(doc.components.len(), 2);
    assert_eq!(doc.components[1].root_element, 2);
    assert_eq!(doc.components[1].parent_element, Some(0));
    let pws = &doc.components[0].popup_windows;
    assert_eq!(pws.len(), 1);
    assert_eq!(pws[0].component, 1);
    assert_eq!(pws[0].parent_element, 0);
    assert!(pws[0].close_on_click);
    assert_eq!(pws[0].x.element, 0);
    assert_eq!(pws[0].x.name, "pop-popup-x");
    assert_eq!(pws[0].y.name, "pop-popup-y");
    assert_eq!(doc.elements[2].enclosing_component, 1);
    assert_eq!(doc.elements[3].enclosing_component, 1);
    assert_eq!(doc.elements[1].enclosing_component, 0);
    assert!(diag.diagnostics.is_empty());
    assert!(!diag.has_errors());
}

#[test]
fn popup_marker_becomes_window() {
    let mut doc = simple_doc(builtin(BuiltinElement::Item));
    let mut diag = BuildDiagnostics::new();
    lower_popup_window(&mut doc, 2, Some(0), &mut diag);
    assert_eq!(doc.elements[2].base_type, builtin(BuiltinElement::Window));
}

#[test]
fn coordinates_move_to_parent() {
    let mut doc = simple_doc(builtin(BuiltinElement::Item));
    bind(&mut doc.elements[2], "x", Expression::NumberLiteral(15));
    let mut diag = BuildDiagnostics::new();
    lower_popup_window(&mut doc, 2, Some(0), &mut diag);
    assert!(binding(&doc.elements[2], "x").is_none());
    assert!(matches!(binding(&doc.elements[0], "pop-popup-x"), Some(Expression::NumberLiteral(15))));
    assert!(matches!(binding(&doc.elements[0], "pop-popup-y"), Some(Expression::NumberLiteral(0))));
    let decls = &doc.elements[0].property_declarations;
    assert_eq!(decls.len(), 2);
    assert!(decls.iter().all(|d| d.property_type == Type::LogicalLength));
    assert!(decls.iter().any(|d| d.name == "pop-popup-x"));
}

#[test]
fn close_on_click_local_literal() {
    let mut doc = simple_doc(builtin(BuiltinElement::Item));
    bind(&mut doc.elements[2], "close-on-click", Expression::BoolLiteral(false));
    let mut diag = BuildDiagnostics::new();
    lower_popup_window(&mut doc, 2, Some(0), &mut diag);
    assert!(!doc.components[0].popup_windows[0].close_on_click);
    assert!(binding(&doc.elements[2], "close-on-click").is_none());
}

#[test]
fn close_on_click_not_constant_is_an_error() {
    let mut doc = simple_doc(builtin(BuiltinElement::Item));
    let r = Expression::PropertyReference(NamedReference { element: 1, name: "visible".to_string() });
    bind(&mut doc.elements[2], "close-on-click", r);
    let mut diag = BuildDiagnostics::new();
    lower_popup_window(&mut doc, 2, Some(0), &mut diag);
    assert!(diag.has_errors());
    assert_eq!(diag.diagnostics.len(), 1);
    assert_eq!(diag.diagnostics[0].kind, DiagnosticKind::CloseOnClickNotConstant);
    assert_eq!(diag.diagnostics[0].element, 2);
    assert!(doc.components[0].popup_windows.is_empty());
    assert_eq!(doc.components.len(), 1);
}

#[test]
fn close_on_click_inherited_from_base_chain() {
    // Popup 2 is a `Menu`, which derives from `BaseMenu`, whose root binds
    // close-on-click to false; `BaseMenu` derives from PopupWindow.
    let mut doc = simple_doc(builtin(BuiltinElement::Item));
    doc.elements[2].base_type = ElementType::Component(1);
    let menu_root = element("menu", ElementType::Component(2), vec![], 1);
    let mut base_root = element("base", builtin(BuiltinElement::Window), vec![], 2);
    bind(&mut base_root, "close-on-click", Expression::BoolLiteral(false));
    doc.elements.push(menu_root);
    doc.elements.push(base_root);
    let mut menu = component("Menu", 4);
    menu.inherits_popup_window = true;
    let mut base = component("BaseMenu", 5);
    base.inherits_popup_window = true;
    doc.components.push(menu);
    doc.components.push(base);
    let mut diag = BuildDiagnostics::new();
    lower_popup_window(&mut doc, 2, Some(0), &mut diag);
    assert_eq!(doc.components[0].popup_windows.len(), 1);
    assert!(!doc.components[0].popup_windows[0].close_on_click);
    assert_eq!(doc.elements[2].base_type, ElementType::Component(1));
}

#[test]
fn popup_at_top_level_marks_component() {
    let pop = element("pop", builtin(BuiltinElement::PopupWindow), vec![], 0);
    let mut doc = Document { elements: vec![pop], components: vec![component("P", 0)], used_components: vec![0] };
    let mut diag = BuildDiagnostics::new();
    lower_popup_window(&mut doc, 0, None, &mut diag);
    assert!(doc.components[0].inherits_popup_window);
    assert!(doc.components[0].popup_windows.is_empty());
    assert_eq!(doc.components.len(), 1);
    assert_eq!(doc.elements[0].base_type, builtin(BuiltinElement::Window));
    assert!(diag.diagnostics.is_empty());
}

#[test]
fn popup_in_layout_warns() {
    let mut doc = simple_doc(builtin(BuiltinElement::Layout));
    let mut diag = BuildDiagnostics::new();
    lower_popup_window(&mut doc, 2, Some(0), &mut diag);
    assert_eq!(diag.diagnostics.len(), 1);
    assert_eq!(diag.diagnostics[0].level, Severity::Warning);
    assert_eq!(diag.diagnostics[0].kind, DiagnosticKind::PopupInLayout);
    assert!(!diag.has_errors());
    assert_eq!(doc.components[0].popup_windows.len(), 1);
}

#[test]
fn repeated_popup_is_an_error() {
    // Element 1 is repeated; its component 1 has the popup (2) as root.
    let root = element("root", builtin(BuiltinElement::Item), vec![1], 0);
    let mut rep = element("rep", ElementType::Component(1), vec![], 0);
    rep.repeated = true;
    let pop = element("pop", builtin(BuiltinElement::PopupWindow), vec![], 1);
    let mut sub = component("Sub", 2);
    sub.parent_element = Some(1);
    let mut doc = Document {
        elements: vec![root, rep, pop],
        components: vec![component("Main", 0), sub],
        used_components: vec![0],
    };
    let mut diag = BuildDiagnostics::new();
    lower_popups(&mut doc, 0, &mut diag);
    assert_eq!(diag.diagnostics.len(), 1);
    assert_eq!(diag.diagnostics[0].kind, DiagnosticKind::PopupRepeatedOrConditional);
    assert_eq!(diag.diagnostics[0].level, Severity::Error);
    assert_eq!(doc.elements[0].children, vec![1]);
    assert!(doc.components[0].popup_windows.is_empty());
    assert!(doc.components[1].popup_windows.is_empty());
}

#[test]
fn references_into_popup_are_redirected() {
    let mut doc = simple_doc(builtin(BuiltinElement::Item));
    let inside = |name: &str| Expression::PropertyReference(NamedReference { element: 3, name: name.to_string() });
    let cond = Expression::Condition {
        condition: Box::new(inside("visible")),
        true_expr: Box::new(inside("width")),
        false_expr: Box::new(Expression::NumberLiteral(1)),
    };
    bind(&mut doc.elements[1], "width", cond);
    let ok = Expression::PropertyReference(NamedReference { element: 1, name: "width".to_string() });
    bind(&mut doc.elements[0], "height", ok);
    let mut diag = BuildDiagnostics::new();
    lower_popup_window(&mut doc, 2, Some(0), &mut diag);
    assert_eq!(diag.diagnostics.len(), 2);
    assert!(diag.diagnostics.iter().all(|d| d.kind == DiagnosticKind::PopupInsideAccess && d.element == 2));
    match binding(&doc.elements[1], "width") {
        Some(Expression::Condition { condition, true_expr, .. }) => {
            for e in [condition, true_expr] {
                match &**e {
                    Expression::PropertyReference(nr) => {
                        assert_eq!(nr.element, 0);
                        assert_eq!(nr.name, "pop-popup-x");
                    }
                    _ => panic!("reference expected"),
                }
            }
        }
        _ => panic!("condition expected"),
    }
    assert!(matches!(binding(&doc.elements[0], "height"), Some(Expression::PropertyReference(nr)) if nr.element == 1));
}

#[test]
fn pass_lowers_every_popup() {
    let mut doc = simple_doc(builtin(BuiltinElement::Item));
    doc.elements[1].children = vec![4];
    doc.elements.push(element("pop2", builtin(BuiltinElement::PopupWindow), vec![], 0));
    let mut diag = BuildDiagnostics::new();
    lower_popups(&mut doc, 0, &mut diag);
    assert_eq!(doc.components[0].popup_windows.len(), 2);
    assert_eq!(doc.elements[0].children, vec![1]);
    assert!(doc.elements[1].children.is_empty());
    assert!(doc.elements[1].has_popup_child);
    assert_eq!(doc.components.len(), 3);
    assert!(diag.diagnostics.is_empty());
}

#[test]
fn diagnostics_have_messages() {
    assert_eq!(DiagnosticKind::PopupInLayout.message(), "PopupWindow shouldn't be a children of a layout");
    assert_eq!(
        DiagnosticKind::PopupInsideAccess.message(),
        "Cannot access the inside of a PopupWindow from enclosing component"
    );
}

#[test]
fn failed_popup_does_not_stop_the_pass() {
    let root = element("root", builtin(BuiltinElement::Item), vec![1, 2], 0);
    let mut bad = element("bad", builtin(BuiltinElement::PopupWindow), vec![], 0);
    let r = Expression::PropertyReference(NamedReference { element: 0, name: "enabled".to_string() });
    bind(&mut bad, "close-on-click", r);
    let good = element("good", builtin(BuiltinElement::PopupWindow), vec![], 0);
    let mut doc = Document {
        elements: vec![root, bad, good],
        components: vec![component("Main", 0)],
        used_components: vec![0],
    };
    let mut diag = BuildDiagnostics::new();
    lower_popups(&mut doc, 0, &mut diag);
    assert_eq!(diag.diagnostics.len(), 1);
    assert_eq!(diag.diagnostics[0].kind, DiagnosticKind::CloseOnClickNotConstant);
    assert_eq!(diag.diagnostics[0].element, 1);
    let pws = &doc.components[0].popup_windows;
    assert_eq!(pws.len(), 1);
    assert_eq!(doc.components[pws[0].component].root_element, 2);
    assert!(doc.elements[0].children.is_empty());
}

#[test]
fn tree_without_popups_is_unchanged() {
    let mut doc = simple_doc(builtin(BuiltinElement::Item));
    doc.elements[2].base_type = builtin(BuiltinElement::Item);
    let before = format!("{:?}", doc);
    let mut diag = BuildDiagnostics::new();
    lower_popups(&mut doc, 0, &mut diag);
    assert_eq!(format!("{:?}", doc), before);
    assert!(diag.diagnostics.is_empty());
}
