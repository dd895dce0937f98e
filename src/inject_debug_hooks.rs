//! Hooks properties for live inspection: every binding of every element of
//! the used components is wrapped in a debug hook that carries an id unique
//! to the element and the property.
use crate::object_tree::{
    clone_expression, comp_shapes, dfs, refs_below, shapes, traverse, Binding, Document,
    Element, ElementDebugInfo, Expression, Shape, Visit, TRAVERSAL_STEPS, element_wf,
};
use vstd::prelude::*;

verus! {

pub open spec fn digit_char(d: nat) -> char {
    if d == 0 { '0' } else if d == 1 { '1' } else if d == 2 { '2' } else if d == 3 { '3' }
    else if d == 4 { '4' } else if d == 5 { '5' } else if d == 6 { '6' } else if d == 7 { '7' }
    else if d == 8 { '8' } else { '9' }
}

/// The decimal digits of `n`, without leading zeros.
pub open spec fn decimal(n: nat) -> Seq<char>
    decreases n,
{
    if n < 10 {
        seq![digit_char(n)]
    } else {
        decimal(n / 10) + seq![digit_char(n % 10)]
    }
}

/// The id of the hook of property `name` of the element numbered `counter`:
/// `?<counter>-<name>`.
pub open spec fn hook_id(counter: nat, name: Seq<char>) -> Seq<char> {
    seq!['?'] + decimal(counter) + seq!['-'] + name
}

fn digit_str(d: u64) -> (r: &'static str)
    requires
        d < 10,
    ensures
        r@ == seq![digit_char(d as nat)],
{
    proof {
        reveal_strlit("0");
        reveal_strlit("1");
        reveal_strlit("2");
        reveal_strlit("3");
        reveal_strlit("4");
        reveal_strlit("5");
        reveal_strlit("6");
        reveal_strlit("7");
        reveal_strlit("8");
        reveal_strlit("9");
    }
    if d == 0 { "0" } else if d == 1 { "1" } else if d == 2 { "2" } else if d == 3 { "3" }
    else if d == 4 { "4" } else if d == 5 { "5" } else if d == 6 { "6" } else if d == 7 { "7" }
    else if d == 8 { "8" } else { "9" }
}

fn append_decimal(s: &mut String, n: u64)
    ensures
        final(s)@ == old(s)@ + decimal(n as nat),
    decreases n,
{
    if n >= 10 {
        append_decimal(s, n / 10);
    }
    s.append(digit_str(n % 10));
    proof {
        if n >= 10 {
            assert(final(s)@ =~= old(s)@ + decimal(n as nat));
        } else {
            assert(final(s)@ =~= old(s)@ + decimal(n as nat));
        }
    }
}

/// The hook id of property `name` of the element numbered `counter`.
pub fn property_id(counter: u64, name: &String) -> (r: String)
    ensures
        r@ == hook_id(counter as nat, name@),
{
    let mut s = String::new();
    proof {
        reveal_strlit("?");
        reveal_strlit("-");
    }
    s.append("?");
    append_decimal(&mut s, counter);
    s.append("-");
    s.append(name.as_str());
    proof {
        assert(s@ =~= hook_id(counter as nat, name@));
    }
    s
}

/// `new` is `old` wrapped in a hook with the given id, unless `old` is a
/// hook already, which is kept as it is.
pub open spec fn hook_of(new: Expression, old: Expression, id: Seq<char>) -> bool {
    if old is DebugHook {
        new == old
    } else {
        match new {
            Expression::DebugHook { expression, id: i } => *expression == old && i@ == id,
            _ => false,
        }
    }
}

/// `new` is `old` with each binding hooked under the element number
/// `counter`, and that number stored in its debug record.
pub open spec fn element_hooked(new: Element, old: Element, counter: u64) -> bool {
    &&& new.id == old.id
    &&& new.base_type == old.base_type
    &&& new.property_declarations@ == old.property_declarations@
    &&& new.children@ == old.children@
    &&& new.repeated == old.repeated
    &&& new.enclosing_component == old.enclosing_component
    &&& new.has_popup_child == old.has_popup_child
    &&& new.bindings@.len() == old.bindings@.len()
    &&& forall|i: int| 0 <= i < old.bindings@.len() ==> {
        &&& (#[trigger] new.bindings@[i]).name == old.bindings@[i].name
        &&& hook_of(new.bindings@[i].expression, old.bindings@[i].expression, hook_id(counter as nat, old.bindings@[i].name@))
    }
    &&& new.debug@ == old.debug@.update(0, ElementDebugInfo { element_id: counter })
}

/// Two elements hold the same values.
pub open spec fn same_element(a: Element, b: Element) -> bool {
    &&& a.id == b.id
    &&& a.base_type == b.base_type
    &&& a.property_declarations@ == b.property_declarations@
    &&& a.children@ == b.children@
    &&& a.repeated == b.repeated
    &&& a.enclosing_component == b.enclosing_component
    &&& a.has_popup_child == b.has_popup_child
    &&& a.bindings@.len() == b.bindings@.len()
    &&& forall|i: int| 0 <= i < a.bindings@.len() ==> {
        &&& (#[trigger] a.bindings@[i]).name == b.bindings@[i].name
        &&& a.bindings@[i].expression == b.bindings@[i].expression
    }
    &&& a.debug@ == b.debug@
}

/// Hooks the bindings of element `e` under number `counter`.
pub fn process_element(doc: &mut Document, e: usize, counter: u64)
    requires
        old(doc).wf(),
        e < old(doc).elements@.len(),
        old(doc).elements@[e as int].debug@.len() == 1,
    ensures
        final(doc).wf(),
        final(doc).components == old(doc).components,
        final(doc).used_components == old(doc).used_components,
        final(doc).elements@.len() == old(doc).elements@.len(),
        forall|i: int| 0 <= i < old(doc).elements@.len() && i != e ==> #[trigger] final(doc).elements@[i] == old(doc).elements@[i],
        element_hooked(final(doc).elements@[e as int], old(doc).elements@[e as int], counter),
{
    let mut el = Element {
        id: String::new(),
        base_type: crate::object_tree::ElementType::Error,
        bindings: Vec::new(),
        property_declarations: Vec::new(),
        children: Vec::new(),
        repeated: false,
        enclosing_component: 0,
        has_popup_child: false,
        debug: Vec::new(),
    };
    doc.elements.set_and_swap(e, &mut el);
    let ghost old_el = el;
    let mut bindings: Vec<Binding> = Vec::new();
    let n = el.bindings.len();
    let mut i: usize = 0;
    while i < n
        invariant
            n == el.bindings@.len(),
            el == old_el,
            i <= n,
            bindings@.len() == i,
            forall|k: int| 0 <= k < i ==> {
                &&& (#[trigger] bindings@[k]).name == el.bindings@[k].name
                &&& hook_of(bindings@[k].expression, el.bindings@[k].expression, hook_id(counter as nat, el.bindings@[k].name@))
            },
        decreases n - i,
    {
        let b = &el.bindings[i];
        let expr = clone_expression(&b.expression);
        let wrapped = if let Expression::DebugHook { .. } = expr {
            expr
        } else {
            Expression::DebugHook { expression: Box::new(expr), id: property_id(counter, &b.name) }
        };
        bindings.push(Binding { name: b.name.clone(), expression: wrapped });
        i = i + 1;
    }
    el.bindings = bindings;
    el.debug.set(0, ElementDebugInfo { element_id: counter });
    doc.elements.set(e, el);
    proof {
        let ne = doc.elements@.len();
        let nc = doc.components@.len();
        assert(element_wf(old(doc).elements@[e as int], ne, nc));
        assert forall|k: int| 0 <= k < el.bindings@.len() implies refs_below(#[trigger] el.bindings@[k].expression, ne) by {
            assert(refs_below(old_el.bindings@[k].expression, ne));
        }
        assert(element_wf(el, ne, nc));
        assert forall|k: int| 0 <= k < ne implies element_wf(#[trigger] doc.elements@[k], ne, nc) by {
            if k != e {
                assert(doc.elements@[k] == old(doc).elements@[k]);
            }
        }
    }
}

/// The visits of a pre-order walk over the used components `roots`, in
/// order, entering sub-components, each element once.
pub open spec fn used_visits(
    sh: Seq<Shape>,
    cs: Seq<(usize, bool)>,
    roots: Seq<usize>,
    seen: Seq<bool>,
) -> Seq<Visit>
    decreases roots.len(),
{
    if roots.len() == 0 {
        Seq::empty()
    } else {
        let r = dfs(sh, cs, true, seq![Visit { element: cs[roots[0] as int].0, parent: None }], seen, TRAVERSAL_STEPS as nat);
        r.0 + used_visits(sh, cs, roots.drop_first(), r.1)
    }
}

/// The order in which the pass numbers the elements of `doc`.
pub open spec fn hook_order(doc: Document) -> Seq<Visit> {
    used_visits(
        shapes(doc.elements@),
        comp_shapes(doc.components@),
        doc.used_components@,
        Seq::new(doc.elements@.len(), |i: int| false),
    )
}

/// The position of the first visit of element `e` in `order`.
pub open spec fn first_visit(order: Seq<Visit>, e: int) -> Option<int> {
    if exists|k: int| 0 <= k < order.len() && order[k].element == e {
        Some(choose|k: int| 0 <= k < order.len() && order[k].element == e && forall|j: int| 0 <= j < k ==> order[j].element != e)
    } else {
        None
    }
}

proof fn lemma_first_visit(order: Seq<Visit>, e: int, k: int)
    requires
        0 <= k < order.len(),
        order[k].element == e,
        forall|j: int| 0 <= j < k ==> order[j].element != e,
    ensures
        first_visit(order, e) == Some(k),
{
    let c = choose|c: int| 0 <= c < order.len() && order[c].element == e && forall|j: int| 0 <= j < c ==> order[j].element != e;
    assert(0 <= c < order.len() && order[c].element == e && forall|j: int| 0 <= j < c ==> order[j].element != e);
    if c < k {
        assert(order[c].element != e);
    } else if c > k {
        assert(order[k].element != e);
    }
}

/// `new` is `old` with each element hooked under the number of its first
/// visit in `order` (counted from 1); elements not visited are unchanged.
pub open spec fn elements_hooked(new: Seq<Element>, old: Seq<Element>, order: Seq<Visit>) -> bool {
    &&& new.len() == old.len()
    &&& forall|i: int| 0 <= i < old.len() ==> match first_visit(order, i) {
        Some(k) => element_hooked(#[trigger] new[i], old[i], (k + 1) as u64),
        None => new[i] == old[i],
    }
}

/// Every element carries exactly one debug record.
pub open spec fn one_debug_record_each(els: Seq<Element>) -> bool {
    forall|i: int| 0 <= i < els.len() ==> (#[trigger] els[i]).debug@.len() == 1
}

#[verifier::rlimit(60)]
/// Hooks the elements of `order`, in order, numbering them from 1; an
/// element met again keeps the number of its first visit.
pub fn inject_in_order(doc: &mut Document, order: &Vec<Visit>)
    requires
        old(doc).wf(),
        one_debug_record_each(old(doc).elements@),
        forall|k: int| 0 <= k < order@.len() ==> (#[trigger] order@[k]).element < old(doc).elements@.len(),
    ensures
        final(doc).wf(),
        final(doc).components == old(doc).components,
        final(doc).used_components == old(doc).used_components,
        elements_hooked(final(doc).elements@, old(doc).elements@, order@),
{
    let n = doc.elements.len();
    let mut done: Vec<bool> = Vec::new();
    let mut j: usize = 0;
    while j < n
        invariant
            j <= n,
            done@.len() == j,
            forall|k: int| 0 <= k < j ==> !(#[trigger] done@[k]),
        decreases n - j,
    {
        done.push(false);
        j = j + 1;
    }
    let mut k: usize = 0;
    while k < order.len()
        invariant
            doc.wf(),
            n == doc.elements@.len(),
            doc.components == old(doc).components,
            doc.used_components == old(doc).used_components,
            old(doc).elements@.len() == n,
            forall|q: int| 0 <= q < order@.len() ==> (#[trigger] order@[q]).element < n,
            k <= order@.len(),
            done@.len() == n,
            forall|i: int| 0 <= i < n ==> (#[trigger] doc.elements@[i]).debug@.len() == 1,
            forall|i: int| 0 <= i < n && #[trigger] done@[i] ==> exists|q: int| {
                &&& 0 <= q < k
                &&& (#[trigger] order@[q]).element == i
                &&& (forall|j: int| 0 <= j < q ==> order@[j].element != i)
                &&& element_hooked(doc.elements@[i], old(doc).elements@[i], (q + 1) as u64)
            },
            forall|i: int| 0 <= i < n && !(#[trigger] done@[i]) ==> {
                &&& doc.elements@[i] == old(doc).elements@[i]
                &&& forall|q: int| 0 <= q < k ==> (#[trigger] order@[q]).element != i
            },
        decreases order@.len() - k,
    {
        let v = order[k];
        let ghost before = doc.elements@;
        let ghost done0 = done@;
        if !done[v.element] {
            process_element(doc, v.element, (k + 1) as u64);
            done.set(v.element, true);
            proof {
                let e = v.element as int;
                assert(order@[k as int].element == e);
            }
        }
        proof {
            assert forall|i: int| 0 <= i < n && #[trigger] done@[i] implies exists|q: int| {
                &&& 0 <= q < k + 1
                &&& (#[trigger] order@[q]).element == i
                &&& (forall|j: int| 0 <= j < q ==> order@[j].element != i)
                &&& element_hooked(doc.elements@[i], old(doc).elements@[i], (q + 1) as u64)
            } by {
                if done0[i] {
                    assert(doc.elements@[i] == before[i]);
                } else {
                    assert(i == v.element);
                    assert(order@[k as int].element == i);
                }
            }
            assert forall|i: int| 0 <= i < n && !(#[trigger] done@[i]) implies {
                &&& doc.elements@[i] == old(doc).elements@[i]
                &&& forall|q: int| 0 <= q < k + 1 ==> (#[trigger] order@[q]).element != i
            } by {
                assert(i != v.element);
            }
        }
        k = k + 1;
    }
    proof {
        assert forall|i: int| 0 <= i < n implies match first_visit(order@, i) {
            Some(q) => element_hooked(#[trigger] doc.elements@[i], old(doc).elements@[i], (q + 1) as u64),
            None => doc.elements@[i] == old(doc).elements@[i],
        } by {
            if done@[i] {
                let q = choose|q: int| {
                    &&& 0 <= q < k
                    &&& (#[trigger] order@[q]).element == i
                    &&& (forall|j: int| 0 <= j < q ==> order@[j].element != i)
                    &&& element_hooked(doc.elements@[i], old(doc).elements@[i], (q + 1) as u64)
                };
                lemma_first_visit(order@, i, q);
            } else {
                assert(!exists|q: int| 0 <= q < order@.len() && order@[q].element == i);
            }
        }
    }
}

/// The pass: when `debug_info` is set, hooks every binding of every element
/// of the used components, numbering the elements from 1 in the order of a
/// pre-order walk that enters sub-components of repeated elements;
/// otherwise does nothing. The components made of lowered popups are
/// walked when `used_components` lists them.
pub fn inject_debug_hooks(doc: &mut Document, debug_info: bool)
    requires
        old(doc).wf(),
        one_debug_record_each(old(doc).elements@),
    ensures
        final(doc).wf(),
        final(doc).components == old(doc).components,
        final(doc).used_components == old(doc).used_components,
        !debug_info ==> final(doc).elements == old(doc).elements,
        debug_info ==> elements_hooked(final(doc).elements@, old(doc).elements@, hook_order(*old(doc))),
{
    if !debug_info {
        return;
    }
    let ghost sh = shapes(doc.elements@);
    let ghost cs = comp_shapes(doc.components@);
    proof {
        crate::object_tree::lemma_doc_shapes_wf(*doc);
    }
    let n = doc.elements.len();
    let mut seen: Vec<bool> = Vec::new();
    let mut j: usize = 0;
    while j < n
        invariant
            j <= n,
            seen@ == Seq::new(j as nat, |i: int| false),
        decreases n - j,
    {
        seen.push(false);
        j = j + 1;
        proof {
            assert(seen@ =~= Seq::new(j as nat, |i: int| false));
        }
    }
    let ghost target = hook_order(*doc);
    let mut order: Vec<Visit> = Vec::new();
    proof {
        assert(doc.used_components@.skip(0) =~= doc.used_components@);
        assert(seen@ =~= Seq::new(doc.elements@.len(), |i: int| false));
        assert(order@ + used_visits(sh, cs, doc.used_components@.skip(0), seen@) =~= target);
    }
    let mut c: usize = 0;
    while c < doc.used_components.len()
        invariant
            doc.wf(),
            n == doc.elements@.len(),
            sh == shapes(doc.elements@),
            cs == comp_shapes(doc.components@),
            crate::object_tree::shapes_wf(sh, cs),
            target == hook_order(*doc),
            c <= doc.used_components@.len(),
            seen@.len() == n,
            order@ + used_visits(sh, cs, doc.used_components@.skip(c as int), seen@) == target,
            forall|q: int| 0 <= q < order@.len() ==> (#[trigger] order@[q]).element < n,
        decreases doc.used_components@.len() - c,
    {
        let comp = doc.used_components[c];
        let root = doc.components[comp].root_element;
        proof {
            assert(crate::object_tree::component_wf(doc.components@[comp as int], n as nat, doc.components@.len()));
        }
        let ghost order0 = order@;
        let ghost seen0 = seen@;
        let start = Visit { element: root, parent: None };
        traverse(doc, start, true, &mut seen, &mut order);
        proof {
            let rest = doc.used_components@.skip(c as int);
            assert(rest[0] == comp);
            assert(rest.drop_first() =~= doc.used_components@.skip(c + 1));
            crate::object_tree::lemma_dfs_in_range(sh, cs, true, seq![start], seen0, TRAVERSAL_STEPS as nat);
            let r = dfs(sh, cs, true, seq![start], seen0, TRAVERSAL_STEPS as nat);
            assert(order@ == order0 + r.0);
            assert forall|q: int| 0 <= q < order@.len() implies (#[trigger] order@[q]).element < n by {
                if q >= order0.len() {
                    assert(order@[q] == r.0[q - order0.len()]);
                }
            }
            assert(order@ + used_visits(sh, cs, doc.used_components@.skip(c + 1), seen@) =~= order0 + used_visits(sh, cs, rest, seen0));
        }
        c = c + 1;
    }
    proof {
        assert(doc.used_components@.skip(c as int) =~= Seq::<usize>::empty());
        assert(order@ =~= target);
    }
    inject_in_order(doc, &order);
}

/// Running the pass twice is the same as running it once: the second run
/// numbers the elements in the same order, wraps no expression a second
/// time and leaves every element id as the first run set it.
pub proof fn lemma_inject_idempotent(d0: Document, d1: Document, d2: Document)
    requires
        d0.wf(),
        one_debug_record_each(d0.elements@),
        d1.components == d0.components,
        d1.used_components == d0.used_components,
        elements_hooked(d1.elements@, d0.elements@, hook_order(d0)),
        d2.components == d1.components,
        d2.used_components == d1.used_components,
        elements_hooked(d2.elements@, d1.elements@, hook_order(d1)),
    ensures
        hook_order(d1) == hook_order(d0),
        d2.elements@.len() == d1.elements@.len(),
        forall|i: int| 0 <= i < d1.elements@.len() ==> same_element(#[trigger] d2.elements@[i], d1.elements@[i]),
{
    let e0 = d0.elements@;
    let e1 = d1.elements@;
    let e2 = d2.elements@;
    let o = hook_order(d0);
    assert forall|i: int| 0 <= i < e0.len() implies #[trigger] shapes(e1)[i] == shapes(e0)[i] by {
        if first_visit(o, i).is_some() {
            assert(element_hooked(e1[i], e0[i], (first_visit(o, i).unwrap() + 1) as u64));
        }
    }
    assert(shapes(e1) =~= shapes(e0));
    assert(hook_order(d1) == o);
    assert forall|i: int| 0 <= i < e1.len() implies same_element(#[trigger] e2[i], e1[i]) by {
        match first_visit(o, i) {
            Some(k) => {
                let c = (k + 1) as u64;
                assert(element_hooked(e1[i], e0[i], c));
                assert(element_hooked(e2[i], e1[i], c));
                assert(e2[i].debug@ =~= e1[i].debug@);
                assert forall|j: int| 0 <= j < e2[i].bindings@.len() implies {
                    &&& (#[trigger] e2[i].bindings@[j]).name == e1[i].bindings@[j].name
                    &&& e2[i].bindings@[j].expression == e1[i].bindings@[j].expression
                } by {
                    assert(hook_of(e1[i].bindings@[j].expression, e0[i].bindings@[j].expression, hook_id(c as nat, e0[i].bindings@[j].name@)));
                    assert(e1[i].bindings@[j].expression is DebugHook);
                }
            },
            None => {},
        }
    }
}

} // verus!
