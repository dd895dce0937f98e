use slint_lowering::debug_hook::{
    find_repeat_count, ComponentInstance, DebugHookKey, DebugHookObserver, DebugHookState,
    PropertyValueOverride, Value,
};

use std::cell::RefCell;
use std::rc::Rc;

struct Recorder {
    seen: Rc<RefCell<Vec<(String, usize, PropertyValueOverride)>>>,
}

impl DebugHookObserver for Recorder {
    fn notify(&self, id: &str, repeat_count: usize, values: &PropertyValueOverride) {
        self.seen.borrow_mut().push((id.to_string(), repeat_count, *values));
    }
}

fn store() -> DebugHookState<Recorder> {
    DebugHookState::new()
}

fn id(s: &str) -> String {
    s.to_string()
}

#[test]
fn current_value_prefers_override() {
    let mut v = PropertyValueOverride::new();
    assert_eq!(v.current_value(), None);
    v.program_value = Some(Value::Number(3));
    assert_eq!(v.current_value(), Some(Value::Number(3)));
    v.override_value = Some(Value::Bool(true));
    assert_eq!(v.current_value(), Some(Value::Bool(true)));
}

#[test]
fn repeat_count_is_zero_for_every_instance() {
    assert_eq!(find_repeat_count(&ComponentInstance::InstanceRef(7)), 0);
    assert_eq!(find_repeat_count(&ComponentInstance::GlobalComponent(2)), 0);
}

#[test]
fn key_holds_id_and_index() {
    let k = DebugHookKey::new(id("?1-width"), 4);
    assert_eq!(k.id, "?1-width");
    assert_eq!(k.repeat_count, 4);
}

#[test]
fn fresh_trigger_sets_initial_and_program_value() {
    let mut s = store();
    let inst = ComponentInstance::InstanceRef(0);
    let (v, note) = s.trigger(&inst, &id("?1-x"), Value::Number(5));
    assert_eq!(v, Value::Number(5));
    assert!(note.is_none());
    let st = s.get_override_state(&id("?1-x"), 0);
    assert_eq!(st.initial_value, Some(Value::Number(5)));
    assert_eq!(st.program_value, Some(Value::Number(5)));
    assert_eq!(st.override_value, None);
}

#[test]
fn later_trigger_keeps_initial_value() {
    let mut s = store();
    let inst = ComponentInstance::InstanceRef(0);
    s.trigger(&inst, &id("?1-x"), Value::Number(5));
    let (v, _) = s.trigger(&inst, &id("?1-x"), Value::Number(9));
    assert_eq!(v, Value::Number(9));
    let st = s.get_override_state(&id("?1-x"), 0);
    assert_eq!(st.initial_value, Some(Value::Number(5)));
    assert_eq!(st.program_value, Some(Value::Number(9)));
}

#[test]
fn override_wins_until_cleared() {
    let mut s = store();
    let inst = ComponentInstance::GlobalComponent(0);
    let key = id("?3-text");
    s.trigger(&inst, &key, Value::Number(1));
    let g1 = s.set_override(&key, 0, Some(Value::Number(42)));
    assert_eq!(s.trigger(&inst, &key, Value::Number(2)).0, Value::Number(42));
    assert_eq!(s.trigger(&inst, &key, Value::Number(3)).0, Value::Number(42));
    let g2 = s.set_override(&key, 0, None);
    assert_eq!(s.trigger(&inst, &key, Value::Number(4)).0, Value::Number(4));
    assert_eq!(g1, 1);
    assert_eq!(g2, 2);
    assert!(g2 > g1);
}

#[test]
fn override_before_first_trigger_is_used() {
    let mut s = store();
    let key = id("?2-y");
    assert_eq!(s.set_override(&key, 0, Some(Value::Void)), 1);
    let (v, _) = s.trigger(&ComponentInstance::InstanceRef(1), &key, Value::Number(8));
    assert_eq!(v, Value::Void);
    let st = s.get_override_state(&key, 0);
    assert_eq!(st.initial_value, Some(Value::Number(8)));
    assert_eq!(st.current_value(), Some(Value::Void));
}

#[test]
fn keys_with_other_index_are_separate() {
    let mut s = store();
    let key = id("?2-y");
    s.set_override(&key, 1, Some(Value::Bool(false)));
    let (v, _) = s.trigger(&ComponentInstance::InstanceRef(1), &key, Value::Number(8));
    assert_eq!(v, Value::Number(8));
    assert_eq!(s.get_override_state(&key, 1).override_value, Some(Value::Bool(false)));
    assert_eq!(s.get_override_state(&id("?9-z"), 0), PropertyValueOverride::new());
}

#[test]
fn observer_is_told_of_every_trigger() {
    let seen: Rc<RefCell<Vec<(String, usize, PropertyValueOverride)>>> = Rc::new(RefCell::new(Vec::new()));
    let mut s = store();
    s.set_observer(Some(Recorder { seen: seen.clone() }));
    let inst = ComponentInstance::InstanceRef(0);
    let (_, note) = s.trigger(&inst, &id("?1-w"), Value::Number(1));
    assert_eq!(seen.borrow().len(), 1);
    assert_eq!(note.expect("an observer is registered").values.program_value, Some(Value::Number(1)));
    s.trigger(&inst, &id("?1-w"), Value::Number(2));
    {
        let got = seen.borrow();
        assert_eq!(got.len(), 2);
        assert_eq!(got[0].0, "?1-w");
        assert_eq!(got[0].1, 0);
        assert_eq!(got[0].2.program_value, Some(Value::Number(1)));
        assert_eq!(got[1].2.initial_value, Some(Value::Number(1)));
        assert_eq!(got[1].2.program_value, Some(Value::Number(2)));
    }
    s.set_observer(None);
    assert!(s.trigger(&inst, &id("?1-w"), Value::Number(3)).1.is_none());
    assert_eq!(seen.borrow().len(), 2);
}
