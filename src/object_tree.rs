//! The object tree shared by all passes: elements and components live in
//! arenas of a `Document` and refer to each other by index.
use vstd::prelude::*;

verus! {

/// A (element, property name) pair.
#[derive(Debug)]
pub struct NamedReference {
    pub element: usize,
    pub name: String,
}

/// The expression of a binding.
#[derive(Debug)]
pub enum Expression {
    Invalid,
    BoolLiteral(bool),
    NumberLiteral(i64),
    StringLiteral(String),
    PropertyReference(NamedReference),
    BinaryExpression { lhs: Box<Expression>, rhs: Box<Expression>, op: char },
    Condition { condition: Box<Expression>, true_expr: Box<Expression>, false_expr: Box<Expression> },
    DebugHook { expression: Box<Expression>, id: String },
}

/// A copy of an expression, equal to it.
pub fn clone_expression(e: &Expression) -> (r: Expression)
    ensures
        r == *e,
    decreases e,
{
    match e {
        Expression::Invalid => Expression::Invalid,
        Expression::BoolLiteral(b) => Expression::BoolLiteral(*b),
        Expression::NumberLiteral(n) => Expression::NumberLiteral(*n),
        Expression::StringLiteral(s) => Expression::StringLiteral(s.clone()),
        Expression::PropertyReference(nr) => Expression::PropertyReference(
            NamedReference { element: nr.element, name: nr.name.clone() },
        ),
        Expression::BinaryExpression { lhs, rhs, op } => Expression::BinaryExpression {
            lhs: Box::new(clone_expression(lhs)),
            rhs: Box::new(clone_expression(rhs)),
            op: *op,
        },
        Expression::Condition { condition, true_expr, false_expr } => Expression::Condition {
            condition: Box::new(clone_expression(condition)),
            true_expr: Box::new(clone_expression(true_expr)),
            false_expr: Box::new(clone_expression(false_expr)),
        },
        Expression::DebugHook { expression, id } => Expression::DebugHook {
            expression: Box::new(clone_expression(expression)),
            id: id.clone(),
        },
    }
}

/// Every element that a reference in `e` names is below `n`.
pub open spec fn refs_below(e: Expression, n: nat) -> bool
    decreases e,
{
    match e {
        Expression::PropertyReference(nr) => nr.element < n,
        Expression::BinaryExpression { lhs, rhs, .. } => refs_below(*lhs, n) && refs_below(*rhs, n),
        Expression::Condition { condition, true_expr, false_expr } => refs_below(*condition, n)
            && refs_below(*true_expr, n) && refs_below(*false_expr, n),
        Expression::DebugHook { expression, .. } => refs_below(*expression, n),
        _ => true,
    }
}

/// The element types that the passes tell apart.
#[derive(Clone, Copy, Debug, PartialEq, Eq, Structural)]
pub enum BuiltinElement {
    /// The builtin popup marker.
    PopupWindow,
    /// The generic window type.
    Window,
    /// A layout container.
    Layout,
    /// Any other builtin item.
    Item,
}

#[derive(Clone, Copy, Debug, PartialEq, Eq, Structural)]
pub enum ElementType {
    Builtin(BuiltinElement),
    /// The component at this index of the document.
    Component(usize),
    Error,
}

#[derive(Clone, Copy, Debug, PartialEq, Eq, Structural)]
pub enum Type {
    LogicalLength,
    Bool,
    Int,
    String,
}

#[derive(Debug)]
pub struct Binding {
    pub name: String,
    pub expression: Expression,
}

#[derive(Debug)]
pub struct PropertyDeclaration {
    pub name: String,
    pub property_type: Type,
}

#[derive(Clone, Copy, Debug, PartialEq, Eq, Structural)]
pub struct ElementDebugInfo {
    pub element_id: u64,
}

#[derive(Debug)]
pub struct Element {
    pub id: String,
    pub base_type: ElementType,
    pub bindings: Vec<Binding>,
    pub property_declarations: Vec<PropertyDeclaration>,
    /// Owning edges to the child elements.
    pub children: Vec<usize>,
    /// Set when the element is repeated or conditional; its base type is then
    /// the component instantiated for it.
    pub repeated: bool,
    /// Back-reference to the component that the element belongs to.
    pub enclosing_component: usize,
    pub has_popup_child: bool,
    pub debug: Vec<ElementDebugInfo>,
}

#[derive(Debug)]
pub struct PopupWindow {
    pub component: usize,
    pub x: NamedReference,
    pub y: NamedReference,
    pub close_on_click: bool,
    pub parent_element: usize,
}

#[derive(Debug)]
pub struct Component {
    pub id: String,
    pub root_element: usize,
    /// For a component made of a repeated or popup element: the element
    /// that holds it.
    pub parent_element: Option<usize>,
    pub inherits_popup_window: bool,
    pub popup_windows: Vec<PopupWindow>,
}

#[derive(Debug)]
pub struct Document {
    pub elements: Vec<Element>,
    pub components: Vec<Component>,
    /// The components that the document exports or uses, in order.
    pub used_components: Vec<usize>,
}

pub open spec fn element_wf(e: Element, n_elements: nat, n_components: nat) -> bool {
    &&& forall|i: int| 0 <= i < e.children@.len() ==> #[trigger] e.children@[i] < n_elements
    &&& e.enclosing_component < n_components
    &&& (e.base_type matches ElementType::Component(c) ==> c < n_components)
    &&& forall|i: int| 0 <= i < e.bindings@.len() ==> refs_below(#[trigger] e.bindings@[i].expression, n_elements)
}

pub open spec fn popup_wf(p: PopupWindow, n_elements: nat, n_components: nat) -> bool {
    &&& p.component < n_components
    &&& p.x.element < n_elements
    &&& p.y.element < n_elements
    &&& p.parent_element < n_elements
}

pub open spec fn component_wf(c: Component, n_elements: nat, n_components: nat) -> bool {
    &&& c.root_element < n_elements
    &&& (c.parent_element matches Some(p) ==> p < n_elements)
    &&& forall|i: int| 0 <= i < c.popup_windows@.len() ==> popup_wf(#[trigger] c.popup_windows@[i], n_elements, n_components)
}

impl Document {
    /// Every index held in the document points into its arenas.
    pub open spec fn wf(&self) -> bool {
        let ne = self.elements@.len();
        let nc = self.components@.len();
        &&& forall|i: int| 0 <= i < ne ==> element_wf(#[trigger] self.elements@[i], ne, nc)
        &&& forall|i: int| 0 <= i < nc ==> component_wf(#[trigger] self.components@[i], ne, nc)
        &&& forall|i: int| 0 <= i < self.used_components@.len() ==> #[trigger] self.used_components@[i] < nc
    }
}

/// The position of the first binding named `name`, if any.
pub open spec fn binding_pos(bs: Seq<Binding>, name: Seq<char>) -> Option<int> {
    if exists|i: int| 0 <= i < bs.len() && bs[i].name@ == name {
        Some(choose|i: int| 0 <= i < bs.len() && bs[i].name@ == name && forall|j: int| 0 <= j < i ==> bs[j].name@ != name)
    } else {
        None
    }
}

/// The expression bound to `name`, if any.
pub open spec fn binding_of(bs: Seq<Binding>, name: Seq<char>) -> Option<Expression> {
    match binding_pos(bs, name) {
        Some(i) => Some(bs[i].expression),
        None => None,
    }
}

pub proof fn lemma_first_pos(bs: Seq<Binding>, name: Seq<char>, i: int)
    requires
        0 <= i < bs.len(),
        bs[i].name@ == name,
        forall|j: int| 0 <= j < i ==> bs[j].name@ != name,
    ensures
        binding_pos(bs, name) == Some(i),
{
    let k = choose|k: int| 0 <= k < bs.len() && bs[k].name@ == name && forall|j: int| 0 <= j < k ==> bs[j].name@ != name;
    assert(0 <= k < bs.len() && bs[k].name@ == name && forall|j: int| 0 <= j < k ==> bs[j].name@ != name);
    if k < i {
        assert(bs[k].name@ != name);
    } else if k > i {
        assert(bs[i].name@ != name);
    }
}

/// Looks up the first binding named `name`.
pub fn find_binding(bs: &Vec<Binding>, name: &str) -> (r: Option<usize>)
    ensures
        match r {
            Some(i) => {
                &&& binding_pos(bs@, name@) == Some(i as int)
                &&& i < bs@.len()
                &&& bs@[i as int].name@ == name@
                &&& forall|j: int| 0 <= j < i ==> bs@[j].name@ != name@
            },
            None => binding_pos(bs@, name@).is_none(),
        },
{
    let key = name.to_owned();
    let mut i: usize = 0;
    while i < bs.len()
        invariant
            key@ == name@,
            i <= bs@.len(),
            forall|j: int| 0 <= j < i ==> bs@[j].name@ != name@,
        decreases bs@.len() - i,
    {
        if bs[i].name.eq(&key) {
            proof {
                lemma_first_pos(bs@, name@, i as int);
            }
            return Some(i);
        }
        i = i + 1;
    }
    None
}

/// One step of a traversal: an element and the element it was reached from.
#[derive(Clone, Copy, Debug, PartialEq, Eq, Structural)]
pub struct Visit {
    pub element: usize,
    pub parent: Option<usize>,
}

/// What a traversal reads of an element.
pub type Shape = (Seq<usize>, ElementType, bool);

pub open spec fn shapes(els: Seq<Element>) -> Seq<Shape> {
    els.map_values(|e: Element| (e.children@, e.base_type, e.repeated))
}

/// What a traversal reads of a component: its root and whether an element
/// holds it.
pub open spec fn comp_shapes(cs: Seq<Component>) -> Seq<(usize, bool)> {
    cs.map_values(|c: Component| (c.root_element, c.parent_element.is_some()))
}

/// The root of the sub-component of a repeated element, which a traversal
/// that enters sub-components visits right after it.
pub open spec fn sub_root(sh: Seq<Shape>, cs: Seq<(usize, bool)>, e: usize) -> Option<usize> {
    let s = sh[e as int];
    if s.2 {
        match s.1 {
            ElementType::Component(c) => if c < cs.len() && cs[c as int].1 {
                Some(cs[c as int].0)
            } else {
                None
            },
            _ => None,
        }
    } else {
        None
    }
}

/// What a visit of `v` pushes on the stack: the children, last first, then
/// the sub-component root, so that it is popped first.
pub open spec fn pushed(sh: Seq<Shape>, cs: Seq<(usize, bool)>, v: Visit, subs: bool) -> Seq<Visit> {
    let ch = sh[v.element as int].0;
    let kids = Seq::new(ch.len(), |i: int| Visit { element: ch[ch.len() - 1 - i], parent: Some(v.element) });
    match sub_root(sh, cs, v.element) {
        Some(r) => if subs {
            kids.push(Visit { element: r, parent: v.parent })
        } else {
            kids
        },
        None => kids,
    }
}

/// Depth-first pre-order from the visits on `stack` (top last), skipping
/// elements already marked in `seen`; returns the visits made and the marks
/// after them.
pub open spec fn dfs(
    sh: Seq<Shape>,
    cs: Seq<(usize, bool)>,
    subs: bool,
    stack: Seq<Visit>,
    seen: Seq<bool>,
    fuel: nat,
) -> (Seq<Visit>, Seq<bool>)
    decreases fuel,
{
    if fuel == 0 || stack.len() == 0 {
        (Seq::empty(), seen)
    } else {
        let v = stack.last();
        let rest = stack.drop_last();
        if seen[v.element as int] {
            dfs(sh, cs, subs, rest, seen, (fuel - 1) as nat)
        } else {
            let r = dfs(sh, cs, subs, rest + pushed(sh, cs, v, subs), seen.update(v.element as int, true), (fuel - 1) as nat);
            (seq![v] + r.0, r.1)
        }
    }
}

/// The number of steps a traversal may take. Each step visits an element or
/// drops a visit of one already seen, so no document that fits in memory
/// comes near it.
pub const TRAVERSAL_STEPS: usize = 0xffff_ffff;

/// Runs the traversal that `dfs` describes, from `start`, appending the
/// visits to `out` and marking the visited elements in `seen`.
pub fn traverse(doc: &Document, start: Visit, subs: bool, seen: &mut Vec<bool>, out: &mut Vec<Visit>)
    requires
        doc.wf(),
        start.element < doc.elements@.len(),
        old(seen)@.len() == doc.elements@.len(),
    ensures
        ({
            let r = dfs(
                shapes(doc.elements@),
                comp_shapes(doc.components@),
                subs,
                seq![start],
                old(seen)@,
                TRAVERSAL_STEPS as nat,
            );
            &&& final(out)@ == old(out)@ + r.0
            &&& final(seen)@ == r.1
        }),
{
    let ghost sh = shapes(doc.elements@);
    let ghost cs = comp_shapes(doc.components@);
    let ghost target = dfs(sh, cs, subs, seq![start], seen@, TRAVERSAL_STEPS as nat);
    let ghost out0 = out@;
    let n = doc.elements.len();
    let mut stack: Vec<Visit> = Vec::new();
    stack.push(start);
    let mut fuel: usize = TRAVERSAL_STEPS;
    while fuel > 0 && stack.len() > 0
        invariant
            doc.wf(),
            n == doc.elements@.len(),
            sh == shapes(doc.elements@),
            cs == comp_shapes(doc.components@),
            seen@.len() == n,
            forall|i: int| 0 <= i < stack@.len() ==> #[trigger] stack@[i].element < n,
            ({
                let r = dfs(sh, cs, subs, stack@, seen@, fuel as nat);
                &&& out0 + (out@.skip(out0.len() as int) + r.0) == out0 + target.0
                &&& r.1 == target.1
                &&& out@.len() >= out0.len()
                &&& out@.take(out0.len() as int) == out0
            }),
        decreases fuel,
    {
        let v = stack.pop().unwrap();
        let ghost rest = stack@;
        if seen[v.element] {
            fuel = fuel - 1;
        } else {
            seen.set(v.element, true);
            out.push(v);
            let el = &doc.elements[v.element];
            assert(element_wf(doc.elements@[v.element as int], n as nat, doc.components@.len()));
            let m = el.children.len();
            let mut j: usize = m;
            while j > 0
                invariant
                    j <= m,
                    m == el.children@.len(),
                    el.children@ == sh[v.element as int].0,
                    forall|i: int| 0 <= i < m ==> #[trigger] el.children@[i] < n,
                    stack@ == rest + Seq::new((m - j) as nat, |i: int| Visit { element: el.children@[m - 1 - i], parent: Some(v.element) }),
                decreases j,
            {
                j = j - 1;
                stack.push(Visit { element: el.children[j], parent: Some(v.element) });
                proof {
                    assert(stack@ =~= rest + Seq::new((m - j) as nat, |i: int| Visit { element: el.children@[m - 1 - i], parent: Some(v.element) }));
                }
            }
            if subs && el.repeated {
                if let ElementType::Component(c) = el.base_type {
                    if doc.components[c].parent_element.is_some() {
                        stack.push(Visit { element: doc.components[c].root_element, parent: v.parent });
                    }
                }
            }
            proof {
                assert(stack@ =~= rest + pushed(sh, cs, v, subs));
            }
            fuel = fuel - 1;
        }
        proof {
            assert(out@.take(out0.len() as int) =~= out0);
        }
    }
    proof {
        assert(out@ =~= out0 + target.0);
    }
}

/// The shapes of a well-formed document point into it.
pub open spec fn shapes_wf(sh: Seq<Shape>, cs: Seq<(usize, bool)>) -> bool {
    &&& forall|e: int, i: int| 0 <= e < sh.len() && 0 <= i < sh[e].0.len() ==> #[trigger] sh[e].0[i] < sh.len()
    &&& forall|c: int| 0 <= c < cs.len() ==> #[trigger] cs[c].0 < sh.len()
}

pub proof fn lemma_doc_shapes_wf(doc: Document)
    requires
        doc.wf(),
    ensures
        shapes_wf(shapes(doc.elements@), comp_shapes(doc.components@)),
{
    let sh = shapes(doc.elements@);
    let cs = comp_shapes(doc.components@);
    let ne = doc.elements@.len();
    let nc = doc.components@.len();
    assert forall|e: int, i: int| 0 <= e < sh.len() && 0 <= i < sh[e].0.len() implies #[trigger] sh[e].0[i] < sh.len() by {
        assert(element_wf(doc.elements@[e], ne, nc));
    }
    assert forall|c: int| 0 <= c < cs.len() implies #[trigger] cs[c].0 < sh.len() by {
        assert(component_wf(doc.components@[c], ne, nc));
    }
}

/// A traversal from elements of the document visits elements of the
/// document only, and keeps one mark per element.
pub proof fn lemma_dfs_in_range(
    sh: Seq<Shape>,
    cs: Seq<(usize, bool)>,
    subs: bool,
    stack: Seq<Visit>,
    seen: Seq<bool>,
    fuel: nat,
)
    requires
        shapes_wf(sh, cs),
        seen.len() == sh.len(),
        forall|i: int| 0 <= i < stack.len() ==> #[trigger] stack[i].element < sh.len() && (stack[i].parent matches Some(q) ==> q < sh.len()),
    ensures
        ({
            let r = dfs(sh, cs, subs, stack, seen, fuel);
            &&& r.1.len() == seen.len()
            &&& forall|i: int| 0 <= i < r.0.len() ==> #[trigger] r.0[i].element < sh.len() && (r.0[i].parent matches Some(q) ==> q < sh.len())
        }),
    decreases fuel,
{
    if fuel > 0 && stack.len() > 0 {
        let v = stack.last();
        let rest = stack.drop_last();
        if seen[v.element as int] {
            lemma_dfs_in_range(sh, cs, subs, rest, seen, (fuel - 1) as nat);
        } else {
            let st = rest + pushed(sh, cs, v, subs);
            assert forall|i: int| 0 <= i < st.len() implies #[trigger] st[i].element < sh.len() && (st[i].parent matches Some(q) ==> q < sh.len()) by {
                if i >= rest.len() {
                    let ch = sh[v.element as int].0;
                    if i - rest.len() < ch.len() {
                        assert(ch[ch.len() - 1 - (i - rest.len())] < sh.len());
                    }
                }
            }
            lemma_dfs_in_range(sh, cs, subs, st, seen.update(v.element as int, true), (fuel - 1) as nat);
            let r = dfs(sh, cs, subs, st, seen.update(v.element as int, true), (fuel - 1) as nat);
            let full = seq![v] + r.0;
            assert forall|i: int| 0 <= i < full.len() implies #[trigger] full[i].element < sh.len() && (full[i].parent matches Some(q) ==> q < sh.len()) by {
                if i > 0 {
                    assert(full[i] == r.0[i - 1]);
                }
            }
        }
    }
}

} // verus!
