//! The pass that turns each popup element into a component of its own,
//! owned by the component that holds it.
use crate::diagnostics::{error_at, warning_at, BuildDiagnostics, Diagnostic, DiagnosticKind};
use crate::object_tree::{
    binding_of, binding_pos, comp_shapes, component_wf, dfs, element_wf, find_binding,
    lemma_dfs_in_range, lemma_doc_shapes_wf, popup_wf, refs_below, shapes, traverse, Binding,
    BuiltinElement, Component, Document, Element, ElementType, Expression, NamedReference,
    PopupWindow, PropertyDeclaration, Type, Visit, TRAVERSAL_STEPS,
};
use vstd::prelude::*;

verus! {

/// `s` with every occurrence of `x` taken out.
pub open spec fn without(s: Seq<usize>, x: usize) -> Seq<usize>
    decreases s.len(),
{
    if s.len() == 0 {
        s
    } else if s.last() == x {
        without(s.drop_last(), x)
    } else {
        without(s.drop_last(), x).push(s.last())
    }
}

/// The number of occurrences of `x` in `s`.
pub open spec fn occurrences(s: Seq<usize>, x: usize) -> nat
    decreases s.len(),
{
    if s.len() == 0 {
        0
    } else {
        occurrences(s.drop_last(), x) + if s.last() == x { 1nat } else { 0nat }
    }
}

pub proof fn lemma_without_len(s: Seq<usize>, x: usize)
    ensures
        without(s, x).len() + occurrences(s, x) == s.len(),
        forall|i: int| 0 <= i < without(s, x).len() ==> s.contains(#[trigger] without(s, x)[i]),
    decreases s.len(),
{
    if s.len() > 0 {
        lemma_without_len(s.drop_last(), x);
        let w = without(s, x);
        let w0 = without(s.drop_last(), x);
        assert forall|i: int| 0 <= i < w.len() implies s.contains(#[trigger] w[i]) by {
            if i < w0.len() {
                assert(w[i] == w0[i]);
                assert(s.drop_last().contains(w0[i]));
                let j = choose|j: int| 0 <= j < s.drop_last().len() && s.drop_last()[j] == w0[i];
                assert(s[j] == w[i]);
            } else {
                assert(s[s.len() - 1] == w[i]);
            }
        }
    }
}

/// `bs` without its first binding named `name`, if it has one.
pub open spec fn without_binding(bs: Seq<Binding>, name: Seq<char>) -> Seq<Binding> {
    match binding_pos(bs, name) {
        Some(i) => bs.remove(i),
        None => bs,
    }
}

/// The base type after lowering: a builtin marker becomes the window type.
pub open spec fn retargeted(t: ElementType) -> ElementType {
    match t {
        ElementType::Builtin(_) => ElementType::Builtin(BuiltinElement::Window),
        _ => t,
    }
}

pub open spec fn is_layout_spec(t: ElementType) -> bool {
    t == ElementType::Builtin(BuiltinElement::Layout)
}

fn is_layout(t: &ElementType) -> (r: bool)
    ensures
        r == is_layout_spec(*t),
{
    match t {
        ElementType::Builtin(BuiltinElement::Layout) => true,
        _ => false,
    }
}

fn placeholder() -> Element {
    Element {
        id: String::new(),
        base_type: ElementType::Error,
        bindings: Vec::new(),
        property_declarations: Vec::new(),
        children: Vec::new(),
        repeated: false,
        enclosing_component: 0,
        has_popup_child: false,
        debug: Vec::new(),
    }
}

/// Takes element `i` out of the arena, leaving a placeholder.
fn take_element(doc: &mut Document, i: usize) -> (r: Element)
    requires
        i < old(doc).elements@.len(),
    ensures
        r == old(doc).elements@[i as int],
        final(doc).elements@.len() == old(doc).elements@.len(),
        forall|j: int| 0 <= j < old(doc).elements@.len() && j != i ==> #[trigger] final(doc).elements@[j] == old(doc).elements@[j],
        final(doc).components == old(doc).components,
        final(doc).used_components == old(doc).used_components,
{
    let mut el = placeholder();
    doc.elements.set_and_swap(i, &mut el);
    el
}

fn placeholder_component() -> Component {
    Component { id: String::new(), root_element: 0, parent_element: None, inherits_popup_window: false, popup_windows: Vec::new() }
}

/// Takes component `i` out of the arena, leaving a placeholder.
fn take_component(doc: &mut Document, i: usize) -> (r: Component)
    requires
        i < old(doc).components@.len(),
    ensures
        r == old(doc).components@[i as int],
        final(doc).components@.len() == old(doc).components@.len(),
        forall|j: int| 0 <= j < old(doc).components@.len() && j != i ==> #[trigger] final(doc).components@[j] == old(doc).components@[j],
        final(doc).elements == old(doc).elements,
        final(doc).used_components == old(doc).used_components,
{
    let mut c = placeholder_component();
    doc.components.set_and_swap(i, &mut c);
    c
}

/// Removes the first binding named `name` and returns its expression.
pub fn remove_binding(bs: &mut Vec<Binding>, name: &str) -> (r: Option<Expression>)
    ensures
        match binding_pos(old(bs)@, name@) {
            Some(i) => 0 <= i < old(bs)@.len() && r == Some(old(bs)@[i].expression) && final(bs)@ == old(bs)@.remove(i),
            None => r.is_none() && final(bs)@ == old(bs)@,
        },
{
    match find_binding(bs, name) {
        Some(i) => {
            let b = bs.remove(i);
            Some(b.expression)
        },
        None => None,
    }
}

/// Binds `name` to `e`, in place of the first binding of that name if there
/// is one, else as a new binding at the end.
pub fn set_binding(bs: &mut Vec<Binding>, name: String, e: Expression)
    ensures
        binding_of(final(bs)@, name@) == Some(e),
        final(bs)@.len() >= old(bs)@.len(),
        forall|j: int| 0 <= j < final(bs)@.len() ==> (j < old(bs)@.len() && #[trigger] final(bs)@[j] == old(bs)@[j]) || (final(bs)@[j].name@ == name@ && final(bs)@[j].expression == e),
{
    let ghost nm = name@;
    match find_binding(bs, name.as_str()) {
        Some(i) => {
            bs.set(i, Binding { name, expression: e });
            proof {
                crate::object_tree::lemma_first_pos(bs@, nm, i as int);
            }
        },
        None => {
            let ghost n = bs@.len();
            bs.push(Binding { name, expression: e });
            proof {
                assert forall|j: int| 0 <= j < n implies bs@[j].name@ != nm by {
                    assert(bs@[j] == old(bs)@[j]);
                }
                crate::object_tree::lemma_first_pos(bs@, nm, n as int);
            }
        },
    }
}

/// The number of references in `e` to elements of component `c`, where
/// `encl` gives the component of each element.
pub open spec fn inside_refs(e: Expression, encl: Seq<usize>, c: usize) -> nat
    decreases e,
{
    match e {
        Expression::PropertyReference(nr) => if nr.element < encl.len() && encl[nr.element as int] == c {
            1
        } else {
            0
        },
        Expression::BinaryExpression { lhs, rhs, .. } => inside_refs(*lhs, encl, c) + inside_refs(*rhs, encl, c),
        Expression::Condition { condition, true_expr, false_expr } => inside_refs(*condition, encl, c)
            + inside_refs(*true_expr, encl, c) + inside_refs(*false_expr, encl, c),
        Expression::DebugHook { expression, .. } => inside_refs(*expression, encl, c),
        _ => 0,
    }
}

/// `new` is `old` with each reference to an element of component `c`
/// replaced by a reference to `to`.
pub open spec fn redirected(new: Expression, old: Expression, encl: Seq<usize>, c: usize, to: NamedReference) -> bool
    decreases old,
{
    match old {
        Expression::PropertyReference(nr) => if nr.element < encl.len() && encl[nr.element as int] == c {
            new == Expression::PropertyReference(to)
        } else {
            new == old
        },
        Expression::BinaryExpression { lhs, rhs, op } => match new {
            Expression::BinaryExpression { lhs: l, rhs: r, op: o } => o == op && redirected(*l, *lhs, encl, c, to)
                && redirected(*r, *rhs, encl, c, to),
            _ => false,
        },
        Expression::Condition { condition, true_expr, false_expr } => match new {
            Expression::Condition { condition: a, true_expr: t, false_expr: f } => redirected(*a, *condition, encl, c, to)
                && redirected(*t, *true_expr, encl, c, to) && redirected(*f, *false_expr, encl, c, to),
            _ => false,
        },
        Expression::DebugHook { expression, id } => match new {
            Expression::DebugHook { expression: x, id: i } => i == id && redirected(*x, *expression, encl, c, to),
            _ => false,
        },
        _ => new == old,
    }
}

/// `n` errors for references into the popup at element `at`.
pub open spec fn inside_access_errors(n: nat, at: usize) -> Seq<Diagnostic> {
    Seq::new(n, |i: int| error_at(DiagnosticKind::PopupInsideAccess, at))
}

proof fn lemma_errors_add(a: nat, b: nat, at: usize)
    ensures
        inside_access_errors(a, at) + inside_access_errors(b, at) =~= inside_access_errors(a + b, at),
{
}

/// Redirects each reference of `e` into component `c` to `to`, reporting
/// an error at element `at` for each.
pub fn redirect(e: Expression, encl: &Vec<usize>, c: usize, to: &NamedReference, diag: &mut BuildDiagnostics, at: usize) -> (r: Expression)
    ensures
        redirected(r, e, encl@, c, *to),
        final(diag).diagnostics@ == old(diag).diagnostics@ + inside_access_errors(inside_refs(e, encl@, c), at),
        forall|n: nat| refs_below(e, n) && to.element < n ==> #[trigger] refs_below(r, n),
        to.element < encl@.len() && encl@[to.element as int] != c ==> inside_refs(r, encl@, c) == 0,
    decreases e,
{
    let ghost d0 = diag.diagnostics@;
    match e {
        Expression::PropertyReference(nr) => {
            if nr.element < encl.len() && encl[nr.element] == c {
                diag.push_error(DiagnosticKind::PopupInsideAccess, at);
                proof {
                    assert(diag.diagnostics@ =~= d0 + inside_access_errors(1, at));
                }
                let r = Expression::PropertyReference(NamedReference { element: to.element, name: to.name.clone() });
                proof {
                    assert forall|n: nat| refs_below(e, n) && to.element < n implies #[trigger] refs_below(r, n) by {
                        assert(refs_below(r, n) == (to.element < n));
                    }
                }
                r
            } else {
                proof {
                    assert(diag.diagnostics@ =~= d0 + inside_access_errors(0, at));
                }
                let r = Expression::PropertyReference(nr);
                proof {
                    assert(r == e);
                }
                r
            }
        },
        Expression::BinaryExpression { lhs, rhs, op } => {
            let ghost (gl, gr) = (*lhs, *rhs);
            let l = redirect(*lhs, encl, c, to, diag, at);
            let r = redirect(*rhs, encl, c, to, diag, at);
            proof {
                lemma_errors_add(inside_refs(gl, encl@, c), inside_refs(gr, encl@, c), at);
                assert(diag.diagnostics@ =~= d0 + inside_access_errors(inside_refs(gl, encl@, c) + inside_refs(gr, encl@, c), at));
            }
            let res = Expression::BinaryExpression { lhs: Box::new(l), rhs: Box::new(r), op };
            proof {
                assert forall|n: nat| refs_below(e, n) && to.element < n implies #[trigger] refs_below(res, n) by {
                    assert(refs_below(gl, n) && refs_below(gr, n));
                    assert(refs_below(l, n) && refs_below(r, n));
                }
            }
            res
        },
        Expression::Condition { condition, true_expr, false_expr } => {
            let ghost (ga, gt, gf) = (*condition, *true_expr, *false_expr);
            let a = redirect(*condition, encl, c, to, diag, at);
            let t = redirect(*true_expr, encl, c, to, diag, at);
            let f = redirect(*false_expr, encl, c, to, diag, at);
            proof {
                let (na, nt, nf) = (inside_refs(ga, encl@, c), inside_refs(gt, encl@, c), inside_refs(gf, encl@, c));
                lemma_errors_add(na, nt, at);
                lemma_errors_add(na + nt, nf, at);
                assert(diag.diagnostics@ =~= d0 + inside_access_errors(na + nt + nf, at));
            }
            let res = Expression::Condition { condition: Box::new(a), true_expr: Box::new(t), false_expr: Box::new(f) };
            proof {
                assert forall|n: nat| refs_below(e, n) && to.element < n implies #[trigger] refs_below(res, n) by {
                    assert(refs_below(ga, n) && refs_below(gt, n) && refs_below(gf, n));
                    assert(refs_below(a, n) && refs_below(t, n) && refs_below(f, n));
                }
            }
            res
        },
        Expression::DebugHook { expression, id } => {
            let ghost gx = *expression;
            let x = redirect(*expression, encl, c, to, diag, at);
            let res = Expression::DebugHook { expression: Box::new(x), id };
            proof {
                assert forall|n: nat| refs_below(e, n) && to.element < n implies #[trigger] refs_below(res, n) by {
                    assert(refs_below(gx, n));
                    assert(refs_below(x, n));
                }
            }
            res
        },
        other => {
            proof {
                assert(diag.diagnostics@ =~= d0 + inside_access_errors(0, at));
            }
            other
        },
    }
}

/// The name of the property that says whether a click outside closes the
/// popup.
pub open spec fn close_on_click_name() -> Seq<char> {
    seq!['c', 'l', 'o', 's', 'e', '-', 'o', 'n', '-', 'c', 'l', 'i', 'c', 'k']
}

/// The `close-on-click` binding inherited along the chain of base
/// components, looking at most `fuel` components up.
pub open spec fn inherited_close_on_click(els: Seq<Element>, comps: Seq<Component>, base: ElementType, fuel: nat) -> Option<Expression>
    decreases fuel,
{
    if fuel == 0 {
        None
    } else {
        match base {
            ElementType::Component(c) => if c < comps.len() && comps[c as int].root_element < els.len() {
                let root = els[comps[c as int].root_element as int];
                match binding_of(root.bindings@, close_on_click_name()) {
                    Some(e) => Some(e),
                    None => inherited_close_on_click(els, comps, root.base_type, (fuel - 1) as nat),
                }
            } else {
                None
            },
            _ => None,
        }
    }
}

/// Walks the chain of base components of `base` for an inherited
/// `close-on-click` binding. A chain without a loop has no more links than
/// the document has components.
fn find_inherited_close_on_click(doc: &Document, base: ElementType) -> (r: Option<Expression>)
    requires
        doc.wf(),
    ensures
        r == inherited_close_on_click(doc.elements@, doc.components@, base, doc.components@.len() as nat),
{
    proof {
        reveal_strlit("close-on-click");
        assert("close-on-click"@ =~= close_on_click_name());
    }
    let ghost target = inherited_close_on_click(doc.elements@, doc.components@, base, doc.components@.len() as nat);
    let mut cur = base;
    let mut fuel: usize = doc.components.len();
    while fuel > 0
        invariant
            doc.wf(),
            "close-on-click"@ == close_on_click_name(),
            target == inherited_close_on_click(doc.elements@, doc.components@, cur, fuel as nat),
            target == inherited_close_on_click(doc.elements@, doc.components@, base, doc.components@.len() as nat),
        decreases fuel,
    {
        match cur {
            ElementType::Component(c) => {
                if c >= doc.components.len() {
                    proof {
                        assert(inherited_close_on_click(doc.elements@, doc.components@, cur, fuel as nat) == None::<Expression>);
                    }
                    return None;
                }
                let ri = doc.components[c].root_element;
                if ri >= doc.elements.len() {
                    proof {
                        assert(inherited_close_on_click(doc.elements@, doc.components@, cur, fuel as nat) == None::<Expression>);
                    }
                    return None;
                }
                let root = &doc.elements[ri];
                match find_binding(&root.bindings, "close-on-click") {
                    Some(i) => {
                        return Some(crate::object_tree::clone_expression(&root.bindings[i].expression));
                    },
                    None => {
                        cur = root.base_type;
                        fuel = fuel - 1;
                    },
                }
            },
            _ => {
                proof {
                    assert(inherited_close_on_click(doc.elements@, doc.components@, cur, fuel as nat) == None::<Expression>);
                }
                return None;
            },
        }
    }
    None
}

/// The flag that a `close-on-click` binding gives: `true` without one, the
/// literal's value for a boolean literal, and nothing for anything else.
pub open spec fn resolved_close_on_click(binding: Option<Expression>) -> Option<bool> {
    match binding {
        None => Some(true),
        Some(Expression::BoolLiteral(b)) => Some(b),
        Some(_) => None,
    }
}

/// The number of references into component `c` in the bindings `bs`.
pub open spec fn bindings_inside_refs(bs: Seq<Binding>, encl: Seq<usize>, c: usize) -> nat
    decreases bs.len(),
{
    if bs.len() == 0 {
        0
    } else {
        bindings_inside_refs(bs.drop_last(), encl, c) + inside_refs(bs.last().expression, encl, c)
    }
}

/// The number of references into component `c` in the bindings of the
/// elements of component `pc`.
pub open spec fn component_inside_refs(els: Seq<Element>, pc: usize, encl: Seq<usize>, c: usize) -> nat
    decreases els.len(),
{
    if els.len() == 0 {
        0
    } else {
        component_inside_refs(els.drop_last(), pc, encl, c) + if els.last().enclosing_component == pc {
            bindings_inside_refs(els.last().bindings@, encl, c)
        } else {
            0
        }
    }
}

/// The bindings `new` are `old` with their references into `c` redirected.
pub open spec fn bindings_redirected(new: Seq<Binding>, old: Seq<Binding>, encl: Seq<usize>, c: usize, to: NamedReference) -> bool {
    &&& new.len() == old.len()
    &&& forall|j: int| 0 <= j < old.len() ==> {
        &&& (#[trigger] new[j]).name == old[j].name
        &&& redirected(new[j].expression, old[j].expression, encl, c, to)
    }
}

fn redirect_bindings(
    bs: &Vec<Binding>,
    encl: &Vec<usize>,
    c: usize,
    to: &NamedReference,
    diag: &mut BuildDiagnostics,
    at: usize,
    n: usize,
) -> (r: Vec<Binding>)
    requires
        to.element < n,
    ensures
        bindings_redirected(r@, bs@, encl@, c, *to),
        final(diag).diagnostics@ == old(diag).diagnostics@ + inside_access_errors(bindings_inside_refs(bs@, encl@, c), at),
        forall|j: int| 0 <= j < bs@.len() && refs_below(bs@[j].expression, n as nat) ==> refs_below(#[trigger] r@[j].expression, n as nat),
        to.element < encl@.len() && encl@[to.element as int] != c ==> forall|j: int| 0 <= j < r@.len() ==> inside_refs(#[trigger] r@[j].expression, encl@, c) == 0,
{
    let ghost d0 = diag.diagnostics@;
    let mut out: Vec<Binding> = Vec::new();
    let mut i: usize = 0;
    while i < bs.len()
        invariant
            to.element < n,
            i <= bs@.len(),
            bindings_redirected(out@, bs@.take(i as int), encl@, c, *to),
            diag.diagnostics@ == d0 + inside_access_errors(bindings_inside_refs(bs@.take(i as int), encl@, c), at),
            forall|j: int| 0 <= j < i && refs_below(bs@[j].expression, n as nat) ==> refs_below(#[trigger] out@[j].expression, n as nat),
            to.element < encl@.len() && encl@[to.element as int] != c ==> forall|j: int| 0 <= j < out@.len() ==> inside_refs(#[trigger] out@[j].expression, encl@, c) == 0,
        decreases bs@.len() - i,
    {
        let ghost before = diag.diagnostics@;
        let e = crate::object_tree::clone_expression(&bs[i].expression);
        let r = redirect(e, encl, c, to, diag, at);
        out.push(Binding { name: bs[i].name.clone(), expression: r });
        proof {
            let t0 = bs@.take(i as int);
            let t1 = bs@.take(i + 1);
            assert(t1.drop_last() =~= t0);
            lemma_errors_add(bindings_inside_refs(t0, encl@, c), inside_refs(bs@[i as int].expression, encl@, c), at);
            assert(diag.diagnostics@ =~= d0 + inside_access_errors(bindings_inside_refs(t1, encl@, c), at));
            assert forall|j: int| 0 <= j < t1.len() implies {
                &&& (#[trigger] out@[j]).name == t1[j].name
                &&& redirected(out@[j].expression, t1[j].expression, encl@, c, *to)
            } by {
                if j < i {
                    assert(t0[j] == t1[j]);
                }
            }
            assert(refs_below(bs@[i as int].expression, n as nat) ==> refs_below(r, n as nat));
        }
        i = i + 1;
    }
    proof {
        assert(bs@.take(i as int) =~= bs@);
    }
    out
}

/// Redirects every reference, in the elements of component `pc`, to an
/// element of component `c` so that it points to `to`, and reports each such
/// reference as an error at element `at`. `encl` gives each element's
/// component.
pub fn redirect_component_refs(
    doc: &mut Document,
    encl: &Vec<usize>,
    pc: usize,
    c: usize,
    to: &NamedReference,
    diag: &mut BuildDiagnostics,
    at: usize,
)
    requires
        old(doc).wf(),
        to.element < old(doc).elements@.len(),
    ensures
        final(doc).wf(),
        final(doc).components == old(doc).components,
        final(doc).used_components == old(doc).used_components,
        final(doc).elements@.len() == old(doc).elements@.len(),
        forall|i: int| 0 <= i < old(doc).elements@.len() ==> {
            let o = old(doc).elements@[i];
            let f = #[trigger] final(doc).elements@[i];
            if o.enclosing_component == pc {
                &&& bindings_redirected(f.bindings@, o.bindings@, encl@, c, *to)
                &&& f.id == o.id && f.base_type == o.base_type && f.children == o.children
                &&& f.repeated == o.repeated && f.enclosing_component == o.enclosing_component
                &&& f.has_popup_child == o.has_popup_child && f.debug == o.debug
                &&& f.property_declarations == o.property_declarations
                &&& (to.element < encl@.len() && encl@[to.element as int] != c ==> forall|j: int|
                    0 <= j < f.bindings@.len() ==> inside_refs(#[trigger] f.bindings@[j].expression, encl@, c) == 0)
            } else {
                f == o
            }
        },
        final(diag).diagnostics@ == old(diag).diagnostics@ + inside_access_errors(
            component_inside_refs(old(doc).elements@, pc, encl@, c),
            at,
        ),
{
    let ghost d0 = diag.diagnostics@;
    let ghost e0 = doc.elements@;
    let n = doc.elements.len();
    let mut i: usize = 0;
    while i < n
        invariant
            doc.wf(),
            n == doc.elements@.len(),
            e0.len() == n,
            e0 == old(doc).elements@,
            to.element < n,
            doc.components == old(doc).components,
            doc.used_components == old(doc).used_components,
            i <= n,
            forall|k: int| i <= k < n ==> #[trigger] doc.elements@[k] == e0[k],
            forall|k: int| 0 <= k < i ==> {
                let o = e0[k];
                let f = #[trigger] doc.elements@[k];
                if o.enclosing_component == pc {
                    &&& bindings_redirected(f.bindings@, o.bindings@, encl@, c, *to)
                    &&& f.id == o.id && f.base_type == o.base_type && f.children == o.children
                    &&& f.repeated == o.repeated && f.enclosing_component == o.enclosing_component
                    &&& f.has_popup_child == o.has_popup_child && f.debug == o.debug
                    &&& f.property_declarations == o.property_declarations
                    &&& (to.element < encl@.len() && encl@[to.element as int] != c ==> forall|j: int|
                        0 <= j < f.bindings@.len() ==> inside_refs(#[trigger] f.bindings@[j].expression, encl@, c) == 0)
                } else {
                    f == o
                }
            },
            diag.diagnostics@ == d0 + inside_access_errors(component_inside_refs(e0.take(i as int), pc, encl@, c), at),
        decreases n - i,
    {
        let ghost t0 = e0.take(i as int);
        let ghost t1 = e0.take(i + 1);
        proof {
            assert(t1.drop_last() =~= t0);
        }
        if doc.elements[i].enclosing_component == pc {
            let ghost before = doc.elements@;
            let mut el = take_element(doc, i);
            let nb = redirect_bindings(&el.bindings, encl, c, to, diag, at, n);
            proof {
                lemma_errors_add(component_inside_refs(t0, pc, encl@, c), bindings_inside_refs(el.bindings@, encl@, c), at);
                let nc = doc.components@.len();
                assert(element_wf(e0[i as int], n as nat, nc));
            }
            el.bindings = nb;
            doc.elements.set(i, el);
            proof {
                let nc = doc.components@.len();
                assert forall|k: int| 0 <= k < n implies crate::object_tree::element_wf(#[trigger] doc.elements@[k], n as nat, nc) by {
                    if k != i {
                        assert(doc.elements@[k] == before[k]);
                    }
                }
                assert forall|k: int| i < k < n implies #[trigger] doc.elements@[k] == e0[k] by {
                    assert(doc.elements@[k] == before[k]);
                }
            }
        } else {
            proof {
                assert(diag.diagnostics@ =~= d0 + inside_access_errors(component_inside_refs(t1, pc, encl@, c), at));
            }
        }
        i = i + 1;
    }
    proof {
        assert(e0.take(n as int) =~= e0);
    }
}

/// The name of the coordinate property that a popup with id `id` gets on
/// its parent: `<id>-popup-<coord>`.
pub open spec fn coordinate_name(id: Seq<char>, coord: Seq<char>) -> Seq<char> {
    id + seq!['-', 'p', 'o', 'p', 'u', 'p', '-'] + coord
}

/// Declares property `name` of type `ty`, in place of an earlier
/// declaration of that name if there is one.
fn declare_property(decls: &mut Vec<PropertyDeclaration>, name: String, ty: Type)
    ensures
        exists|j: int| 0 <= j < final(decls)@.len() && (#[trigger] final(decls)@[j]).name@ == name@ && final(decls)@[j].property_type == ty,
        final(decls)@.len() >= old(decls)@.len(),
        forall|j: int| 0 <= j < final(decls)@.len() ==> (j < old(decls)@.len() && #[trigger] final(decls)@[j] == old(decls)@[j])
            || (final(decls)@[j].name@ == name@ && final(decls)@[j].property_type == ty),
{
    let mut i: usize = 0;
    while i < decls.len()
        invariant
            decls@ == old(decls)@,
            i <= decls@.len(),
        decreases decls@.len() - i,
    {
        if decls[i].name.eq(&name) {
            decls.set(i, PropertyDeclaration { name, property_type: ty });
            proof {
                assert(decls@[i as int].name@ == name@);
            }
            return;
        }
        i = i + 1;
    }
    decls.push(PropertyDeclaration { name, property_type: ty });
    proof {
        assert(decls@[decls@.len() - 1].name@ == name@);
    }
}

/// The expression that a popup's coordinate starts from: its own binding
/// of that coordinate, else zero.
pub open spec fn coordinate_expression(popup_bindings: Seq<Binding>, coord: Seq<char>) -> Expression {
    match binding_of(popup_bindings, coord) {
        Some(e) => e,
        None => Expression::NumberLiteral(0),
    }
}

#[verifier::rlimit(80)]
/// Moves the `coord` binding of the popup (zero if it has none) onto a new
/// length property of the parent, and returns a reference to it.
pub fn create_coordinate(doc: &mut Document, popup: usize, parent: usize, coord: &str) -> (r: NamedReference)
    requires
        old(doc).wf(),
        popup < old(doc).elements@.len(),
        parent < old(doc).elements@.len(),
        popup != parent,
    ensures
        final(doc).wf(),
        final(doc).components == old(doc).components,
        final(doc).used_components == old(doc).used_components,
        final(doc).elements@.len() == old(doc).elements@.len(),
        r.element == parent,
        r.name@ == coordinate_name(old(doc).elements@[popup as int].id@, coord@),
        binding_of(final(doc).elements@[parent as int].bindings@, r.name@) == Some(
            coordinate_expression(old(doc).elements@[popup as int].bindings@, coord@),
        ),
        exists|j: int|
            0 <= j < final(doc).elements@[parent as int].property_declarations@.len()
                && (#[trigger] final(doc).elements@[parent as int].property_declarations@[j]).name@ == r.name@
                && final(doc).elements@[parent as int].property_declarations@[j].property_type == Type::LogicalLength,
        final(doc).elements@[popup as int].bindings@ == without_binding(old(doc).elements@[popup as int].bindings@, coord@),
        final(doc).elements@[popup as int].property_declarations == old(doc).elements@[popup as int].property_declarations,
        final(doc).elements@[popup as int].debug == old(doc).elements@[popup as int].debug,
        final(doc).elements@[parent as int].debug == old(doc).elements@[parent as int].debug,
        forall|j: int| 0 <= j < final(doc).elements@[parent as int].bindings@.len() ==> {
            let fb = #[trigger] final(doc).elements@[parent as int].bindings@[j];
            let ob = old(doc).elements@[parent as int].bindings@;
            (j < ob.len() && fb == ob[j]) || (fb.name@ == r.name@ && fb.expression == coordinate_expression(old(doc).elements@[popup as int].bindings@, coord@))
        },
        final(doc).elements@[parent as int].bindings@.len() >= old(doc).elements@[parent as int].bindings@.len(),
        forall|i: int| 0 <= i < old(doc).elements@.len() && i != popup && i != parent ==> #[trigger] final(doc).elements@[i] == old(doc).elements@[i],
        ({
            let o = old(doc).elements@[popup as int];
            let f = final(doc).elements@[popup as int];
            f.id == o.id && f.base_type == o.base_type && f.children == o.children && f.repeated == o.repeated
                && f.enclosing_component == o.enclosing_component && f.has_popup_child == o.has_popup_child
        }),
        ({
            let o = old(doc).elements@[parent as int];
            let f = final(doc).elements@[parent as int];
            f.id == o.id && f.base_type == o.base_type && f.children == o.children && f.repeated == o.repeated
                && f.enclosing_component == o.enclosing_component && f.has_popup_child == o.has_popup_child
        }),
{
    let n = doc.elements.len();
    let ghost nc = doc.components@.len();
    let ghost e0 = doc.elements@;
    proof {
        assert(element_wf(e0[popup as int], n as nat, nc));
        assert(element_wf(e0[parent as int], n as nat, nc));
    }
    let mut pe = take_element(doc, popup);
    let ghost pb = pe.bindings@;
    let removed = remove_binding(&mut pe.bindings, coord);
    let expression = match removed {
        Some(e) => e,
        None => Expression::NumberLiteral(0),
    };
    proof {
        reveal_strlit("-popup-");
        if let Some(k) = binding_pos(pb, coord@) {
            assert(refs_below(pb[k].expression, n as nat));
            assert forall|j: int| 0 <= j < pe.bindings@.len() implies refs_below(#[trigger] pe.bindings@[j].expression, n as nat) by {
                if j < k {
                    assert(pe.bindings@[j] == pb[j]);
                } else {
                    assert(pe.bindings@[j] == pb[j + 1]);
                }
            }
        }
    }
    proof {
        if let Some(k) = binding_pos(pb, coord@) {
            assert(refs_below(pb[k].expression, n as nat));
        }
        assert(refs_below(expression, n as nat));
    }
    let mut name = pe.id.clone();
    name.append("-popup-");
    name.append(coord);
    doc.elements.set(popup, pe);
    let mut par = take_element(doc, parent);
    declare_property(&mut par.property_declarations, name.clone(), Type::LogicalLength);
    let ghost parb = par.bindings@;
    set_binding(&mut par.bindings, name.clone(), expression);
    proof {
        assert(parb == e0[parent as int].bindings@);
        assert forall|j: int| 0 <= j < par.bindings@.len() implies refs_below(#[trigger] par.bindings@[j].expression, n as nat) by {
            if j < parb.len() && par.bindings@[j] == parb[j] {
                assert(refs_below(parb[j].expression, n as nat));
            } else {
                assert(par.bindings@[j].expression == expression);
            }
        }
    }
    doc.elements.set(parent, par);
    proof {
        let ne = n as nat;
        assert(element_wf(doc.elements@[parent as int], ne, nc));
        assert(element_wf(doc.elements@[popup as int], ne, nc));
        assert forall|k: int| 0 <= k < n implies element_wf(#[trigger] doc.elements@[k], ne, nc) by {
            if k != popup && k != parent {
                assert(doc.elements@[k] == e0[k]);
            }
        }
        assert(name@ =~= coordinate_name(e0[popup as int].id@, coord@));
        let j = choose|j: int| 0 <= j < par.property_declarations@.len() && (#[trigger] par.property_declarations@[j]).name@ == name@ && par.property_declarations@[j].property_type == Type::LogicalLength;
        assert(doc.elements@[parent as int].property_declarations@[j].name@ == name@);
    }
    NamedReference { element: parent, name }
}

/// Moves each element of `visits` into component `c`.
fn set_enclosing(doc: &mut Document, visits: &Vec<Visit>, c: usize)
    requires
        old(doc).wf(),
        c < old(doc).components@.len(),
        forall|k: int| 0 <= k < visits@.len() ==> (#[trigger] visits@[k]).element < old(doc).elements@.len(),
    ensures
        final(doc).wf(),
        final(doc).components == old(doc).components,
        final(doc).used_components == old(doc).used_components,
        final(doc).elements@.len() == old(doc).elements@.len(),
        forall|i: int| 0 <= i < old(doc).elements@.len() ==> {
            let o = old(doc).elements@[i];
            let f = #[trigger] final(doc).elements@[i];
            &&& f.id == o.id && f.base_type == o.base_type && f.children == o.children && f.repeated == o.repeated
            &&& f.has_popup_child == o.has_popup_child && f.bindings == o.bindings && f.debug == o.debug
            &&& f.property_declarations == o.property_declarations
            &&& (f.enclosing_component == o.enclosing_component || f.enclosing_component == c)
        },
        forall|k: int| 0 <= k < visits@.len() ==> final(doc).elements@[(#[trigger] visits@[k]).element as int].enclosing_component == c,
{
    let n = doc.elements.len();
    let mut k: usize = 0;
    while k < visits.len()
        invariant
            doc.wf(),
            n == doc.elements@.len(),
            n == old(doc).elements@.len(),
            c < doc.components@.len(),
            doc.components == old(doc).components,
            doc.used_components == old(doc).used_components,
            k <= visits@.len(),
            forall|q: int| 0 <= q < visits@.len() ==> (#[trigger] visits@[q]).element < n,
            forall|i: int| 0 <= i < n ==> {
                let o = old(doc).elements@[i];
                let f = #[trigger] doc.elements@[i];
                &&& f.id == o.id && f.base_type == o.base_type && f.children == o.children && f.repeated == o.repeated
                &&& f.has_popup_child == o.has_popup_child && f.bindings == o.bindings && f.debug == o.debug
                &&& f.property_declarations == o.property_declarations
                &&& (f.enclosing_component == o.enclosing_component || f.enclosing_component == c)
            },
            forall|q: int| 0 <= q < k ==> doc.elements@[(#[trigger] visits@[q]).element as int].enclosing_component == c,
        decreases visits@.len() - k,
    {
        let e = visits[k].element;
        let ghost before = doc.elements@;
        let mut el = take_element(doc, e);
        el.enclosing_component = c;
        doc.elements.set(e, el);
        proof {
            let nc = doc.components@.len();
            assert(element_wf(before[e as int], n as nat, nc));
            assert forall|i: int| 0 <= i < n implies element_wf(#[trigger] doc.elements@[i], n as nat, nc) by {
                if i != e {
                    assert(doc.elements@[i] == before[i]);
                }
            }
            assert forall|q: int| 0 <= q < k + 1 implies doc.elements@[(#[trigger] visits@[q]).element as int].enclosing_component == c by {
                if visits@[q].element != e {
                    assert(doc.elements@[visits@[q].element as int] == before[visits@[q].element as int]);
                }
            }
        }
        k = k + 1;
    }
}

/// The component of each element.
pub open spec fn enclosures(els: Seq<Element>) -> Seq<usize> {
    els.map_values(|e: Element| e.enclosing_component)
}

fn collect_enclosures(doc: &Document) -> (r: Vec<usize>)
    ensures
        r@ == enclosures(doc.elements@),
{
    let mut r: Vec<usize> = Vec::new();
    let mut i: usize = 0;
    while i < doc.elements.len()
        invariant
            i <= doc.elements@.len(),
            r@ == enclosures(doc.elements@.take(i as int)),
        decreases doc.elements@.len() - i,
    {
        r.push(doc.elements[i].enclosing_component);
        i = i + 1;
        proof {
            assert(r@ =~= enclosures(doc.elements@.take(i as int)));
        }
    }
    proof {
        assert(doc.elements@.take(i as int) =~= doc.elements@);
    }
    r
}

/// The references of component `pc` into the new popup component `newc`
/// were redirected to `to`, from the elements `mid` (the state once the
/// popup's subtree had moved to `newc` and the coordinates to `p`) to the
/// final elements `f`, with one error at the popup for each. Apart from `p`
/// and the popup, the bindings of `mid` are those of the elements `o`
/// before the lowering.
pub open spec fn redirected_from(
    mid: Seq<Element>,
    o: Seq<Element>,
    f: Seq<Element>,
    pc: usize,
    newc: usize,
    popup: usize,
    p: usize,
    to: NamedReference,
    g0: Seq<Diagnostic>,
    g1: Seq<Diagnostic>,
) -> bool {
    &&& mid.len() == f.len()
    &&& enclosures(mid) == enclosures(f)
    &&& g1 == g0 + inside_access_errors(component_inside_refs(mid, pc, enclosures(f), newc), popup)
    &&& forall|i: int| 0 <= i < f.len() ==> if (#[trigger] mid[i]).enclosing_component == pc {
        bindings_redirected(f[i].bindings@, mid[i].bindings@, enclosures(f), newc, to)
    } else {
        f[i] == mid[i]
    }
    &&& forall|i: int| 0 <= i < f.len() && i != p && i != popup ==> (#[trigger] mid[i]).bindings == o[i].bindings
}

/// Adds the component made of the popup element, owned by `p`.
fn push_popup_component(doc: &mut Document, popup: usize, p: usize) -> (newc: usize)
    requires
        old(doc).wf(),
        popup < old(doc).elements@.len(),
        p < old(doc).elements@.len(),
    ensures
        final(doc).wf(),
        newc == old(doc).components@.len(),
        final(doc).elements == old(doc).elements,
        final(doc).used_components == old(doc).used_components,
        final(doc).components@.len() == newc + 1,
        forall|i: int| 0 <= i < newc ==> #[trigger] final(doc).components@[i] == old(doc).components@[i],
        final(doc).components@[newc as int].root_element == popup,
        final(doc).components@[newc as int].parent_element == Some(p),
        !final(doc).components@[newc as int].inherits_popup_window,
        final(doc).components@[newc as int].popup_windows@.len() == 0,
{
    let n = doc.elements.len();
    let newc = doc.components.len();
    doc.components.push(Component {
        id: String::new(),
        root_element: popup,
        parent_element: Some(p),
        inherits_popup_window: false,
        popup_windows: Vec::new(),
    });
    proof {
        let nc = doc.components@.len();
        assert forall|i: int| 0 <= i < n implies element_wf(#[trigger] doc.elements@[i], n as nat, nc) by {
            assert(element_wf(old(doc).elements@[i], n as nat, (nc - 1) as nat));
        }
        assert forall|i: int| 0 <= i < nc implies component_wf(#[trigger] doc.components@[i], n as nat, nc) by {
            if i < nc - 1 {
                assert(doc.components@[i] == old(doc).components@[i]);
                assert(component_wf(old(doc).components@[i], n as nat, (nc - 1) as nat));
                assert forall|j: int| 0 <= j < doc.components@[i].popup_windows@.len() implies popup_wf(#[trigger] doc.components@[i].popup_windows@[j], n as nat, nc) by {
                    assert(popup_wf(old(doc).components@[i].popup_windows@[j], n as nat, (nc - 1) as nat));
                }
            }
        }
        assert forall|i: int| 0 <= i < doc.used_components@.len() implies #[trigger] doc.used_components@[i] < nc by {
            assert(old(doc).used_components@[i] < nc - 1);
        }
    }
    newc
}

/// Moves the element `root` and its descendants (not entering
/// sub-components) into component `c`.
fn move_subtree(doc: &mut Document, root: usize, c: usize)
    requires
        old(doc).wf(),
        root < old(doc).elements@.len(),
        c < old(doc).components@.len(),
    ensures
        final(doc).wf(),
        final(doc).components == old(doc).components,
        final(doc).used_components == old(doc).used_components,
        final(doc).elements@.len() == old(doc).elements@.len(),
        forall|i: int| 0 <= i < old(doc).elements@.len() ==> {
            let o = old(doc).elements@[i];
            let f = #[trigger] final(doc).elements@[i];
            &&& f.id == o.id && f.base_type == o.base_type && f.children == o.children && f.repeated == o.repeated
            &&& f.has_popup_child == o.has_popup_child && f.bindings == o.bindings && f.debug == o.debug
            &&& f.property_declarations == o.property_declarations
            &&& (f.enclosing_component == o.enclosing_component || f.enclosing_component == c)
        },
        final(doc).elements@[root as int].enclosing_component == c,
        ({
            let sub = dfs(
                shapes(old(doc).elements@),
                comp_shapes(old(doc).components@),
                false,
                seq![Visit { element: root, parent: None }],
                Seq::new(old(doc).elements@.len(), |i: int| false),
                TRAVERSAL_STEPS as nat,
            ).0;
            forall|k: int| 0 <= k < sub.len() ==> final(doc).elements@[(#[trigger] sub[k]).element as int].enclosing_component == c
        }),
{
    let n = doc.elements.len();
    let mut seen: Vec<bool> = Vec::new();
    let mut j: usize = 0;
    while j < n
        invariant
            j <= n,
            seen@ == Seq::new(j as nat, |i: int| false),
        decreases n - j,
    {
        seen.push(false);
        j = j + 1;
        proof {
            assert(seen@ =~= Seq::new(j as nat, |i: int| false));
        }
    }
    let ghost seen0 = seen@;
    let mut visits: Vec<Visit> = Vec::new();
    let start = Visit { element: root, parent: None };
    traverse(doc, start, false, &mut seen, &mut visits);
    proof {
        let sh = shapes(doc.elements@);
        let cs = comp_shapes(doc.components@);
        lemma_doc_shapes_wf(*doc);
        lemma_dfs_in_range(sh, cs, false, seq![start], seen0, TRAVERSAL_STEPS as nat);
        assert(!seen0[root as int]);
        assert(seq![start].drop_last() =~= Seq::<Visit>::empty());
        let r = dfs(sh, cs, false, seq![start], seen0, TRAVERSAL_STEPS as nat);
        assert(r.0[0] == start);
        assert(visits@[0] == start);
    }
    set_enclosing(doc, &visits, c);
    proof {
        assert(doc.elements@[visits@[0].element as int].enclosing_component == c);
    }
}

/// Turns the popup element, already detached from its parent `p` in
/// component `pc`, into the root of a new component owned by `p`: moves its
/// subtree there, gives `p` the coordinate properties, redirects the
/// references of `pc` into the new component and records the popup in `pc`.
#[verifier::rlimit(80)]
fn make_popup_component(doc: &mut Document, popup: usize, p: usize, pc: usize, close_on_click: bool, diag: &mut BuildDiagnostics)
    requires
        old(doc).wf(),
        popup < old(doc).elements@.len(),
        p < old(doc).elements@.len(),
        p != popup,
        pc < old(doc).components@.len(),
    ensures
        final(doc).wf(),
        final(doc).used_components == old(doc).used_components,
        final(doc).elements@.len() == old(doc).elements@.len(),
        final(doc).components@.len() == old(doc).components@.len() + 1,
        ({
            let newc = old(doc).components@.len() as usize;
            let comp = final(doc).components@[newc as int];
            let pws = final(doc).components@[pc as int].popup_windows@;
            let last = pws[pws.len() - 1];
            let o = old(doc).elements@;
            let f = final(doc).elements@;
            &&& comp.root_element == popup
            &&& comp.parent_element == Some(p)
            &&& !comp.inherits_popup_window
            &&& comp.popup_windows@.len() == 0
            &&& pws.len() == old(doc).components@[pc as int].popup_windows@.len() + 1
            &&& forall|j: int| 0 <= j < pws.len() - 1 ==> #[trigger] pws[j] == old(doc).components@[pc as int].popup_windows@[j]
            &&& last.component == newc
            &&& last.close_on_click == close_on_click
            &&& last.parent_element == p
            &&& last.x.element == p
            &&& last.y.element == p
            &&& last.x.name@ == coordinate_name(o[popup as int].id@, seq!['x'])
            &&& last.y.name@ == coordinate_name(o[popup as int].id@, seq!['y'])
            &&& f[popup as int].enclosing_component == newc
            &&& f[popup as int].base_type == o[popup as int].base_type
            &&& f[p as int].children == o[p as int].children
            &&& f[p as int].has_popup_child == o[p as int].has_popup_child
            &&& f[p as int].base_type == o[p as int].base_type
            &&& f[popup as int].bindings@ == without_binding(without_binding(o[popup as int].bindings@, seq!['x']), seq!['y'])
            &&& exists|mid: Seq<Element>| redirected_from(mid, o, f, pc, newc, popup, p, last.x, old(diag).diagnostics@, final(diag).diagnostics@)
            &&& f[p as int].enclosing_component != newc ==> forall|i: int, j: int|
                0 <= i < f.len() && f[i].enclosing_component == pc && 0 <= j < f[i].bindings@.len()
                    ==> inside_refs(#[trigger] f[i].bindings@[j].expression, enclosures(f), newc) == 0
        }),
{
    let ghost o = doc.elements@;
    let n = doc.elements.len();
    let ghost old_pws = doc.components@[pc as int].popup_windows@;
    let newc = push_popup_component(doc, popup, p);
    move_subtree(doc, popup, newc);
    let x = create_coordinate(doc, popup, p, "x");
    let y = create_coordinate(doc, popup, p, "y");
    let ghost e2 = doc.elements@;
    let encl = collect_enclosures(doc);
    let ghost d_before = diag.diagnostics@;
    let ghost x_ghost = x;
    redirect_component_refs(doc, &encl, pc, newc, &x, diag, popup);
    let ghost e3 = doc.elements@;
    proof {
        assert(enclosures(e3) =~= enclosures(e2));
        assert(e2[p as int].enclosing_component == e3[p as int].enclosing_component);
        reveal_strlit("x");
        reveal_strlit("y");
        assert("x"@ =~= seq!['x']);
        assert("y"@ =~= seq!['y']);
        assert(e3[popup as int] == e2[popup as int]);
    }
    let mut comp = take_component(doc, pc);
    comp.popup_windows.push(PopupWindow { component: newc, x, y, close_on_click, parent_element: p });
    doc.components.set(pc, comp);
    proof {
        reveal_strlit("x");
        reveal_strlit("y");
        let nc = doc.components@.len();
        assert forall|i: int| 0 <= i < nc implies component_wf(#[trigger] doc.components@[i], n as nat, nc) by {
            if i == pc {
                assert forall|j: int| 0 <= j < doc.components@[i].popup_windows@.len() implies popup_wf(#[trigger] doc.components@[i].popup_windows@[j], n as nat, nc) by {
                    if j < old_pws.len() {
                        assert(component_wf(old(doc).components@[i], n as nat, (nc - 1) as nat));
                        assert(popup_wf(old_pws[j], n as nat, (nc - 1) as nat));
                    }
                }
            }
        }
        assert(doc.elements@ == e3);
        let pws = doc.components@[pc as int].popup_windows@;
        assert(pws[pws.len() - 1].x == x_ghost);
        assert(redirected_from(e2, o, e3, pc, newc, popup, p, x_ghost, d_before, diag.diagnostics@));
    }
}

/// Replaces a builtin base type of element `e` by the window type.
fn retarget_base(doc: &mut Document, e: usize)
    requires
        old(doc).wf(),
        e < old(doc).elements@.len(),
    ensures
        final(doc).wf(),
        final(doc).components == old(doc).components,
        final(doc).used_components == old(doc).used_components,
        final(doc).elements@.len() == old(doc).elements@.len(),
        forall|i: int| 0 <= i < old(doc).elements@.len() && i != e ==> #[trigger] final(doc).elements@[i] == old(doc).elements@[i],
        ({
            let o = old(doc).elements@[e as int];
            let f = final(doc).elements@[e as int];
            &&& f.base_type == retargeted(o.base_type)
            &&& f.id == o.id && f.children == o.children && f.repeated == o.repeated
            &&& f.has_popup_child == o.has_popup_child && f.bindings == o.bindings && f.debug == o.debug
            &&& f.property_declarations == o.property_declarations && f.enclosing_component == o.enclosing_component
        }),
{
    let ghost before = doc.elements@;
    let n = doc.elements.len();
    let mut el = take_element(doc, e);
    if let ElementType::Builtin(_) = el.base_type {
        el.base_type = ElementType::Builtin(BuiltinElement::Window);
    }
    doc.elements.set(e, el);
    proof {
        let nc = doc.components@.len();
        assert(element_wf(before[e as int], n as nat, nc));
        assert forall|i: int| 0 <= i < n implies element_wf(#[trigger] doc.elements@[i], n as nat, nc) by {
            if i != e {
                assert(doc.elements@[i] == before[i]);
            }
        }
    }
}

/// Detaches `child` from the children of `p` and marks `p` as having a
/// popup child.
fn detach_child(doc: &mut Document, p: usize, child: usize)
    requires
        old(doc).wf(),
        p < old(doc).elements@.len(),
    ensures
        final(doc).wf(),
        final(doc).components == old(doc).components,
        final(doc).used_components == old(doc).used_components,
        final(doc).elements@.len() == old(doc).elements@.len(),
        forall|i: int| 0 <= i < old(doc).elements@.len() && i != p ==> #[trigger] final(doc).elements@[i] == old(doc).elements@[i],
        ({
            let o = old(doc).elements@[p as int];
            let f = final(doc).elements@[p as int];
            &&& f.children@ == without(o.children@, child)
            &&& f.has_popup_child
            &&& f.id == o.id && f.base_type == o.base_type && f.repeated == o.repeated
            &&& f.bindings == o.bindings && f.debug == o.debug
            &&& f.property_declarations == o.property_declarations && f.enclosing_component == o.enclosing_component
        }),
{
    let ghost before = doc.elements@;
    let n = doc.elements.len();
    let mut el = take_element(doc, p);
    let ghost ch = el.children@;
    let mut kept: Vec<usize> = Vec::new();
    let mut i: usize = 0;
    while i < el.children.len()
        invariant
            i <= el.children@.len(),
            el.children@ == ch,
            kept@ == without(ch.take(i as int), child),
        decreases el.children@.len() - i,
    {
        let c = el.children[i];
        if c != child {
            kept.push(c);
        }
        proof {
            assert(ch.take(i + 1).drop_last() =~= ch.take(i as int));
        }
        i = i + 1;
    }
    proof {
        assert(ch.take(i as int) =~= ch);
        lemma_without_len(ch, child);
    }
    el.children = kept;
    el.has_popup_child = true;
    doc.elements.set(p, el);
    proof {
        let nc = doc.components@.len();
        assert(element_wf(before[p as int], n as nat, nc));
        let w = without(ch, child);
        assert forall|k: int| 0 <= k < w.len() implies #[trigger] w[k] < n by {
            assert(ch.contains(w[k]));
        }
        assert forall|k: int| 0 <= k < n implies element_wf(#[trigger] doc.elements@[k], n as nat, nc) by {
            if k != p {
                assert(doc.elements@[k] == before[k]);
            }
        }
    }
}

/// Removes the popup's own `close-on-click` binding, if any.
fn remove_close_on_click(doc: &mut Document, e: usize)
    requires
        old(doc).wf(),
        e < old(doc).elements@.len(),
    ensures
        final(doc).wf(),
        final(doc).components == old(doc).components,
        final(doc).used_components == old(doc).used_components,
        final(doc).elements@.len() == old(doc).elements@.len(),
        forall|i: int| 0 <= i < old(doc).elements@.len() && i != e ==> #[trigger] final(doc).elements@[i] == old(doc).elements@[i],
        ({
            let o = old(doc).elements@[e as int];
            let f = final(doc).elements@[e as int];
            &&& f.base_type == o.base_type
            &&& f.id == o.id && f.children == o.children && f.repeated == o.repeated
            &&& f.has_popup_child == o.has_popup_child && f.debug == o.debug
            &&& f.property_declarations == o.property_declarations && f.enclosing_component == o.enclosing_component
            &&& f.bindings@ == without_binding(o.bindings@, close_on_click_name())
        }),
{
    let ghost before = doc.elements@;
    let n = doc.elements.len();
    let mut el = take_element(doc, e);
    let ghost eb = el.bindings@;
    proof {
        reveal_strlit("close-on-click");
        assert("close-on-click"@ =~= close_on_click_name());
    }
    let _ = remove_binding(&mut el.bindings, "close-on-click");
    doc.elements.set(e, el);
    proof {
        let nc = doc.components@.len();
        assert(element_wf(before[e as int], n as nat, nc));
        if let Some(k) = binding_pos(eb, close_on_click_name()) {
            assert forall|j: int| 0 <= j < el.bindings@.len() implies refs_below(#[trigger] el.bindings@[j].expression, n as nat) by {
                if j < k {
                    assert(el.bindings@[j] == eb[j]);
                } else {
                    assert(el.bindings@[j] == eb[j + 1]);
                }
            }
        }
        assert forall|k: int| 0 <= k < n implies element_wf(#[trigger] doc.elements@[k], n as nat, nc) by {
            if k != e {
                assert(doc.elements@[k] == before[k]);
            }
        }
    }
}

/// Marks component `c` as inheriting popup behaviour.
fn set_inherits_popup(doc: &mut Document, c: usize)
    requires
        old(doc).wf(),
        c < old(doc).components@.len(),
    ensures
        final(doc).wf(),
        final(doc).elements == old(doc).elements,
        final(doc).used_components == old(doc).used_components,
        final(doc).components@.len() == old(doc).components@.len(),
        forall|i: int| 0 <= i < old(doc).components@.len() && i != c ==> #[trigger] final(doc).components@[i] == old(doc).components@[i],
        final(doc).components@[c as int].inherits_popup_window,
        final(doc).components@[c as int].root_element == old(doc).components@[c as int].root_element,
        final(doc).components@[c as int].parent_element == old(doc).components@[c as int].parent_element,
        final(doc).components@[c as int].popup_windows == old(doc).components@[c as int].popup_windows,
{
    let ghost before = doc.components@;
    let mut comp = take_component(doc, c);
    comp.inherits_popup_window = true;
    doc.components.set(c, comp);
    proof {
        let n = doc.elements@.len();
        let nc = doc.components@.len();
        assert(component_wf(before[c as int], n, nc));
        assert forall|k: int| 0 <= k < nc implies component_wf(#[trigger] doc.components@[k], n, nc) by {
            if k != c {
                assert(doc.components@[k] == before[k]);
            }
        }
    }
}

/// The `close-on-click` binding that decides a popup: its own, else the one
/// inherited along its chain of base components.
pub open spec fn close_on_click_binding(els: Seq<Element>, comps: Seq<Component>, popup: usize) -> Option<Expression> {
    match binding_of(els[popup as int].bindings@, close_on_click_name()) {
        Some(e) => Some(e),
        None => inherited_close_on_click(els, comps, els[popup as int].base_type, comps.len()),
    }
}

/// The warning owed for a popup whose parent is `parent`.
pub open spec fn layout_warning(els: Seq<Element>, parent: usize, popup: usize) -> Seq<Diagnostic> {
    if is_layout_spec(els[parent as int].base_type) {
        seq![warning_at(DiagnosticKind::PopupInLayout, popup)]
    } else {
        Seq::empty()
    }
}

/// What lowering the popup element `popup`, reached from `parent`, does to
/// the document `d0` (giving `d1`) and to the diagnostics `g0` (giving `g1`).
/// - Without a parent, the popup is the root of its component: a builtin
///   marker becomes the window type and the component is marked as
///   inheriting popup behaviour; nothing else changes.
/// - A parent that is a layout earns a warning.
/// - A popup that is the root of its component is repeated or conditional:
///   an error, and the document is left as it was.
/// - Otherwise the popup leaves its parent's children, the parent is marked,
///   a builtin marker becomes the window type, and the `close-on-click` flag
///   is resolved. A flag that is not a constant is an error and ends the
///   lowering there. Else the popup becomes the root of a new component
///   owned by the parent, with a record appended to the enclosing
///   component's popups, and each reference from the enclosing component
///   into the popup is reported and redirected.
pub open spec fn popup_lowered(
    d0: Document,
    d1: Document,
    g0: Seq<Diagnostic>,
    g1: Seq<Diagnostic>,
    popup: usize,
    parent: Option<usize>,
) -> bool {
    let o = d0.elements@;
    let f = d1.elements@;
    let oc = d0.components@;
    let fc = d1.components@;
    let pc = o[popup as int].enclosing_component;
    &&& d1.wf()
    &&& d1.used_components == d0.used_components
    &&& f.len() == o.len()
    &&& match parent {
        None => {
            let op = o[popup as int];
            let fp = f[popup as int];
            &&& fp.base_type == retargeted(op.base_type)
            &&& fp.id == op.id && fp.children == op.children && fp.repeated == op.repeated
            &&& fp.has_popup_child == op.has_popup_child && fp.bindings == op.bindings && fp.debug == op.debug
            &&& fp.property_declarations == op.property_declarations && fp.enclosing_component == op.enclosing_component
            &&& forall|i: int| 0 <= i < o.len() && i != popup ==> #[trigger] f[i] == o[i]
            &&& fc.len() == oc.len()
            &&& fc[pc as int].inherits_popup_window
            &&& fc[pc as int].root_element == oc[pc as int].root_element
            &&& fc[pc as int].parent_element == oc[pc as int].parent_element
            &&& fc[pc as int].popup_windows == oc[pc as int].popup_windows
            &&& forall|c: int| 0 <= c < oc.len() && c != pc ==> #[trigger] fc[c] == oc[c]
            &&& g1 == g0
        },
        Some(p) => {
            let warn = layout_warning(o, p, popup);
            if oc[pc as int].root_element == popup {
                &&& d1.elements == d0.elements
                &&& d1.components == d0.components
                &&& g1 == g0 + warn + seq![error_at(DiagnosticKind::PopupRepeatedOrConditional, popup)]
            } else {
                let coc = resolved_close_on_click(close_on_click_binding(o, oc, popup));
                &&& f[p as int].children@ == without(o[p as int].children@, popup)
                &&& (occurrences(o[p as int].children@, popup) == 1 ==> f[p as int].children@.len() == o[p as int].children@.len() - 1)
                &&& f[p as int].has_popup_child
                &&& f[popup as int].base_type == retargeted(o[popup as int].base_type)
                &&& match coc {
                    None => {
                        &&& d1.components == d0.components
                        &&& g1 == g0 + warn + seq![error_at(DiagnosticKind::CloseOnClickNotConstant, popup)]
                    },
                    Some(b) => {
                        let newc = oc.len() as usize;
                        let comp = fc[newc as int];
                        let pws = fc[pc as int].popup_windows@;
                        let last = pws[pws.len() - 1];
                        &&& fc.len() == oc.len() + 1
                        &&& comp.root_element == popup
                        &&& comp.parent_element == Some(p)
                        &&& pws.len() == oc[pc as int].popup_windows@.len() + 1
                        &&& forall|j: int| 0 <= j < pws.len() - 1 ==> #[trigger] pws[j] == oc[pc as int].popup_windows@[j]
                        &&& last.component == newc
                        &&& last.close_on_click == b
                        &&& last.parent_element == p
                        &&& last.x.element == p && last.y.element == p
                        &&& last.x.name@ == coordinate_name(o[popup as int].id@, seq!['x'])
                        &&& last.y.name@ == coordinate_name(o[popup as int].id@, seq!['y'])
                        &&& f[popup as int].enclosing_component == newc
                        &&& f[popup as int].bindings@ == without_binding(
                            without_binding(without_binding(o[popup as int].bindings@, close_on_click_name()), seq!['x']),
                            seq!['y'],
                        )
                        &&& exists|mid: Seq<Element>| redirected_from(mid, o, f, pc, newc, popup, p, last.x, g0 + warn, g1)
                        &&& f[p as int].enclosing_component != newc ==> forall|i: int, j: int|
                            0 <= i < f.len() && f[i].enclosing_component == pc && 0 <= j < f[i].bindings@.len()
                                ==> inside_refs(#[trigger] f[i].bindings@[j].expression, enclosures(f), newc) == 0
                    },
                }
            }
        },
    }
}

/// Lowers one popup element, reached from `parent` in the traversal.
#[verifier::spinoff_prover]
#[verifier::rlimit(100)]
pub fn lower_popup_window(doc: &mut Document, popup: usize, parent: Option<usize>, diag: &mut BuildDiagnostics)
    requires
        old(doc).wf(),
        popup < old(doc).elements@.len(),
        parent matches Some(p) ==> p < old(doc).elements@.len() && p != popup,
    ensures
        popup_lowered(*old(doc), *final(doc), old(diag).diagnostics@, final(diag).diagnostics@, popup, parent),
{
    let ghost o = doc.elements@;
    let ghost oc = doc.components@;
    let ghost d0 = diag.diagnostics@;
    let n = doc.elements.len();
    let pc = doc.elements[popup].enclosing_component;
    proof {
        assert(element_wf(o[popup as int], n as nat, oc.len()));
    }
    let p = match parent {
        None => {
            retarget_base(doc, popup);
            set_inherits_popup(doc, pc);
            return;
        },
        Some(p) => p,
    };
    if is_layout(&doc.elements[p].base_type) {
        diag.push_warning(DiagnosticKind::PopupInLayout, popup);
    }
    let ghost d1 = diag.diagnostics@;
    proof {
        assert(d1 == d0 + layout_warning(o, p, popup));
    }
    if doc.components[pc].root_element == popup {
        diag.push_error(DiagnosticKind::PopupRepeatedOrConditional, popup);
        proof {
            assert(diag.diagnostics@ =~= d0 + layout_warning(o, p, popup) + seq![error_at(DiagnosticKind::PopupRepeatedOrConditional, popup)]);
        }
        return;
    }
    proof {
        reveal_strlit("close-on-click");
        assert("close-on-click"@ =~= close_on_click_name());
    }
    let found = match find_binding(&doc.elements[popup].bindings, "close-on-click") {
        Some(i) => Some(crate::object_tree::clone_expression(&doc.elements[popup].bindings[i].expression)),
        None => find_inherited_close_on_click(doc, doc.elements[popup].base_type),
    };
    detach_child(doc, p, popup);
    retarget_base(doc, popup);
    remove_close_on_click(doc, popup);
    proof {
        lemma_without_len(o[p as int].children@, popup);
    }
    let close_on_click = match found {
        None => true,
        Some(Expression::BoolLiteral(b)) => b,
        Some(_) => {
            diag.push_error(DiagnosticKind::CloseOnClickNotConstant, popup);
            proof {
                assert(diag.diagnostics@ =~= d0 + layout_warning(o, p, popup) + seq![error_at(DiagnosticKind::CloseOnClickNotConstant, popup)]);
            }
            return;
        },
    };
    let ghost oi = doc.elements@;
    proof {
        assert forall|i: int| 0 <= i < o.len() && i != p && i != popup implies #[trigger] oi[i] == o[i] by {}
        assert(oi[popup as int].bindings@ == without_binding(o[popup as int].bindings@, close_on_click_name()));
    }
    make_popup_component(doc, popup, p, pc, close_on_click, diag);
    proof {
        let f = doc.elements@;
        let pws = doc.components@[pc as int].popup_windows@;
        let x = pws[pws.len() - 1].x;
        let newc = oc.len() as usize;
        let mid = choose|mid: Seq<Element>| redirected_from(mid, oi, f, pc, newc, popup, p, x, d1, diag.diagnostics@);
        assert(redirected_from(mid, o, f, pc, newc, popup, p, x, d0 + layout_warning(o, p, popup), diag.diagnostics@));
    }
}

/// Whether an element of base type `t` is a popup: the builtin marker, or
/// a component that inherits popup behaviour.
pub open spec fn is_popup_type(comps: Seq<Component>, t: ElementType) -> bool {
    match t {
        ElementType::Builtin(b) => b == BuiltinElement::PopupWindow,
        ElementType::Component(c) => c < comps.len() && comps[c as int].inherits_popup_window,
        ElementType::Error => false,
    }
}

fn is_popup(doc: &Document, t: ElementType) -> (r: bool)
    ensures
        r == is_popup_type(doc.components@, t),
{
    match t {
        ElementType::Builtin(b) => b == BuiltinElement::PopupWindow,
        ElementType::Component(c) => c < doc.components.len() && doc.components[c].inherits_popup_window,
        ElementType::Error => false,
    }
}

/// The visits of the pass over `component`: a pre-order walk from its root
/// that enters sub-components of repeated elements, each element once.
pub open spec fn popup_walk(doc: Document, component: usize) -> Seq<Visit> {
    dfs(
        shapes(doc.elements@),
        comp_shapes(doc.components@),
        true,
        seq![Visit { element: doc.components@[component as int].root_element, parent: None }],
        Seq::new(doc.elements@.len(), |i: int| false),
        TRAVERSAL_STEPS as nat,
    ).0
}

/// One step of the pass: the element of visit `v` is lowered if it is a
/// popup in `d0` (and not its own parent), else nothing changes.
pub open spec fn popup_step(d0: Document, d1: Document, g0: Seq<Diagnostic>, g1: Seq<Diagnostic>, v: Visit) -> bool {
    if is_popup_type(d0.components@, d0.elements@[v.element as int].base_type) && v.parent != Some(v.element) {
        popup_lowered(d0, d1, g0, g1, v.element, v.parent)
    } else {
        d1 == d0 && g1 == g0
    }
}

/// The pass: walks the elements of `component` in pre-order, entering
/// sub-components of repeated elements, and lowers each element that is a
/// popup when its turn comes, as `popup_lowered` describes. The states
/// after each visit form the chain `ds` (documents) and `gs` (diagnostics).
pub fn lower_popups(doc: &mut Document, component: usize, diag: &mut BuildDiagnostics)
    requires
        old(doc).wf(),
        component < old(doc).components@.len(),
    ensures
        final(doc).wf(),
        final(doc).used_components == old(doc).used_components,
        final(doc).elements@.len() == old(doc).elements@.len(),
        final(doc).components@.len() >= old(doc).components@.len(),
        ({
            let vs = popup_walk(*old(doc), component);
            exists|ds: Seq<Document>, gs: Seq<Seq<Diagnostic>>| {
                &&& ds.len() == vs.len() + 1
                &&& gs.len() == vs.len() + 1
                &&& ds[0] == *old(doc)
                &&& gs[0] == old(diag).diagnostics@
                &&& ds.last() == *final(doc)
                &&& gs.last() == final(diag).diagnostics@
                &&& forall|k: int| 0 <= k < vs.len() ==> #[trigger] popup_step(ds[k], ds[k + 1], gs[k], gs[k + 1], vs[k])
            }
        }),
        (forall|k: int| 0 <= k < popup_walk(*old(doc), component).len() ==> !is_popup_type(
            old(doc).components@,
            old(doc).elements@[(#[trigger] popup_walk(*old(doc), component)[k]).element as int].base_type,
        )) ==> *final(doc) == *old(doc) && final(diag).diagnostics@ == old(diag).diagnostics@,
{
    let ghost vs = popup_walk(*doc, component);
    let ghost no_popups = forall|k: int| 0 <= k < vs.len() ==> !is_popup_type(
        doc.components@,
        doc.elements@[(#[trigger] vs[k]).element as int].base_type,
    );
    let n = doc.elements.len();
    let mut seen: Vec<bool> = Vec::new();
    let mut j: usize = 0;
    while j < n
        invariant
            j <= n,
            seen@ == Seq::new(j as nat, |i: int| false),
        decreases n - j,
    {
        seen.push(false);
        j = j + 1;
        proof {
            assert(seen@ =~= Seq::new(j as nat, |i: int| false));
        }
    }
    let ghost seen0 = seen@;
    let root = doc.components[component].root_element;
    proof {
        assert(component_wf(doc.components@[component as int], n as nat, doc.components@.len()));
    }
    let start = Visit { element: root, parent: None };
    let mut visits: Vec<Visit> = Vec::new();
    traverse(doc, start, true, &mut seen, &mut visits);
    proof {
        lemma_doc_shapes_wf(*doc);
        lemma_dfs_in_range(shapes(doc.elements@), comp_shapes(doc.components@), true, seq![start], seen0, TRAVERSAL_STEPS as nat);
        assert(visits@ =~= vs);
    }
    let ghost nc0 = doc.components@.len();
    let ghost mut ds: Seq<Document> = seq![*doc];
    let ghost mut gs: Seq<Seq<Diagnostic>> = seq![diag.diagnostics@];
    let mut k: usize = 0;
    while k < visits.len()
        invariant
            doc.wf(),
            n == doc.elements@.len(),
            doc.used_components == old(doc).used_components,
            doc.components@.len() >= nc0,
            nc0 == old(doc).components@.len(),
            visits@ == vs,
            vs == popup_walk(*old(doc), component),
            forall|q: int| 0 <= q < visits@.len() ==> (#[trigger] visits@[q]).element < n && (visits@[q].parent matches Some(x) ==> x < n),
            k <= visits@.len(),
            ds.len() == k + 1,
            gs.len() == k + 1,
            ds[0] == *old(doc),
            gs[0] == old(diag).diagnostics@,
            ds.last() == *doc,
            gs.last() == diag.diagnostics@,
            forall|q: int| 0 <= q < k ==> #[trigger] popup_step(ds[q], ds[q + 1], gs[q], gs[q + 1], vs[q]),
            no_popups == forall|q: int| 0 <= q < vs.len() ==> !is_popup_type(
                old(doc).components@,
                old(doc).elements@[(#[trigger] vs[q]).element as int].base_type,
            ),
            no_popups ==> *doc == *old(doc) && diag.diagnostics@ == old(diag).diagnostics@,
        decreases visits@.len() - k,
    {
        let v = visits[k];
        let ghost d_before = *doc;
        let ghost g_before = diag.diagnostics@;
        let t = doc.elements[v.element].base_type;
        let parent_ok = match v.parent {
            Some(x) => x != v.element,
            None => true,
        };
        if parent_ok && is_popup(doc, t) {
            lower_popup_window(doc, v.element, v.parent, diag);
            proof {
                if no_popups {
                    assert(!is_popup_type(old(doc).components@, old(doc).elements@[vs[k as int].element as int].base_type));
                }
            }
        }
        proof {
            assert(popup_step(d_before, *doc, g_before, diag.diagnostics@, v));
            ds = ds.push(*doc);
            gs = gs.push(diag.diagnostics@);
            assert forall|q: int| 0 <= q < k + 1 implies #[trigger] popup_step(ds[q], ds[q + 1], gs[q], gs[q + 1], vs[q]) by {
                if q < k {
                    assert(ds[q] == ds.drop_last()[q]);
                }
            }
        }
        k = k + 1;
    }
    proof {
        assert(ds.len() == vs.len() + 1);
    }
}

} // verus!
