//! The runtime side of debug hooks: a store, keyed by hook id and repeat
//! index, of the values that instrumented bindings evaluated to, with an
//! optional override per key and a generation counter bumped on each change
//! of that override.
use vstd::prelude::*;

verus! {

/// A value produced by evaluating a binding.
#[derive(Clone, Copy, Debug, PartialEq, Eq, Structural)]
pub enum Value {
    Void,
    Bool(bool),
    Number(i64),
}

/// A struct used to remember and or override properties marked with a debug
/// hook expression.
#[derive(Clone, Copy, Debug, PartialEq, Eq, Structural)]
pub struct PropertyValueOverride {
    /// The first value ever assigned to the property
    pub initial_value: Option<Value>,
    /// The value last evaluated by the code wrapped in the debug hook
    pub program_value: Option<Value>,
    /// The value the debug hook overrides the `program_value` with
    pub override_value: Option<Value>,
}

/// The record of a key that was never seen before.
pub open spec fn empty_override() -> PropertyValueOverride {
    PropertyValueOverride { initial_value: None, program_value: None, override_value: None }
}

/// The value a property reports: the override if there is one, else the
/// program's own value.
pub open spec fn current_of(v: PropertyValueOverride) -> Option<Value> {
    if v.override_value.is_some() {
        v.override_value
    } else {
        v.program_value
    }
}

impl PropertyValueOverride {
    /// A record with no value at all.
    pub fn new() -> (r: PropertyValueOverride)
        ensures
            r == empty_override(),
    {
        PropertyValueOverride { initial_value: None, program_value: None, override_value: None }
    }

    /// Return the value the property should report right now
    ///
    /// This is either the `override_value` (if set) or the `program_value`
    pub fn current_value(&self) -> (r: Option<Value>)
        ensures
            r == current_of(*self),
    {
        if self.override_value.is_some() {
            self.override_value
        } else {
            self.program_value
        }
    }
}

/// What the store keeps for one key: the value record and the override
/// generation.
pub type HookRecord = (PropertyValueOverride, i32);

/// The record of a key before any call touched it.
pub open spec fn fresh_record() -> HookRecord {
    (empty_override(), 0i32)
}

/// The record of a key as found in a store view, a fresh one if absent.
pub open spec fn record_or_fresh(m: Map<(Seq<char>, usize), HookRecord>, k: (Seq<char>, usize)) -> HookRecord {
    if m.contains_key(k) {
        m[k]
    } else {
        fresh_record()
    }
}

/// The record after the hooked binding evaluated to `value`: the first
/// value is remembered, the program value is replaced, the override stays.
pub open spec fn triggered(rec: HookRecord, value: Value) -> HookRecord {
    (
        PropertyValueOverride {
            initial_value: if rec.0.initial_value.is_none() {
                Some(value)
            } else {
                rec.0.initial_value
            },
            program_value: Some(value),
            override_value: rec.0.override_value,
        },
        rec.1,
    )
}

/// The value handed back to the program after `triggered`.
pub open spec fn triggered_result(rec: HookRecord, value: Value) -> Value {
    match rec.0.override_value {
        Some(o) => o,
        None => value,
    }
}

/// The record after its override was set to `value` (or cleared by `None`):
/// the generation moves on by one, wrapping around.
pub open spec fn overridden(rec: HookRecord, value: Option<Value>) -> HookRecord {
    (
        PropertyValueOverride {
            initial_value: rec.0.initial_value,
            program_value: rec.0.program_value,
            override_value: value,
        },
        rec.1.wrapping_add(1),
    )
}

/// Identifies one live instance of an instrumented binding.
pub struct DebugHookKey {
    pub id: String,
    pub repeat_count: usize,
}

impl DebugHookKey {
    pub fn new(id: String, repeat_count: usize) -> (r: DebugHookKey)
        ensures
            r.id@ == id@,
            r.repeat_count == repeat_count,
    {
        DebugHookKey { id, repeat_count }
    }
}

/// The instance whose binding is being evaluated.
pub enum ComponentInstance {
    InstanceRef(usize),
    GlobalComponent(usize),
}

/// The repeat index of the evaluating instance. Repeated instances are not
/// told apart yet: every instance reports index 0.
pub fn find_repeat_count(instance: &ComponentInstance) -> (r: usize)
    ensures
        r == 0,
{
    match instance {
        ComponentInstance::InstanceRef(_) => 0,
        ComponentInstance::GlobalComponent(_) => 0,
    }
}

/// One entry of the store.
pub struct ValueState {
    pub id: String,
    pub repeat_count: usize,
    pub values: PropertyValueOverride,
    /// Bumped on each change of the override. The store keeps it as a plain
    /// counter: telling the reactive engine's dependents that it moved is
    /// up to the caller of `set_override`, which gets the new value back.
    pub override_generation: i32,
}

pub open spec fn key_of(s: ValueState) -> (Seq<char>, usize) {
    (s.id@, s.repeat_count)
}

pub open spec fn record_of(s: ValueState) -> HookRecord {
    (s.values, s.override_generation)
}

/// The map that a sequence of entries stands for.
pub open spec fn entries_view(s: Seq<ValueState>) -> Map<(Seq<char>, usize), HookRecord>
    decreases s.len(),
{
    if s.len() == 0 {
        Map::empty()
    } else {
        entries_view(s.drop_last()).insert(key_of(s.last()), record_of(s.last()))
    }
}

pub open spec fn keys_unique(s: Seq<ValueState>) -> bool {
    forall|i: int, j: int|
        0 <= i < s.len() && 0 <= j < s.len() && i != j ==> key_of(#[trigger] s[i]) != key_of(
            #[trigger] s[j],
        )
}

proof fn lemma_view_absent(s: Seq<ValueState>, k: (Seq<char>, usize))
    requires
        forall|i: int| 0 <= i < s.len() ==> key_of(#[trigger] s[i]) != k,
    ensures
        !entries_view(s).contains_key(k),
    decreases s.len(),
{
    if s.len() > 0 {
        lemma_view_absent(s.drop_last(), k);
    }
}

proof fn lemma_view_at(s: Seq<ValueState>, i: int)
    requires
        keys_unique(s),
        0 <= i < s.len(),
    ensures
        entries_view(s).contains_key(key_of(s[i])),
        entries_view(s)[key_of(s[i])] == record_of(s[i]),
    decreases s.len(),
{
    if i != s.len() - 1 {
        assert(s.drop_last()[i] == s[i]);
        lemma_view_at(s.drop_last(), i);
        assert(key_of(s[i]) != key_of(s[s.len() - 1]));
    }
}

proof fn lemma_view_update(s: Seq<ValueState>, i: int, x: ValueState)
    requires
        0 <= i < s.len(),
        key_of(x) == key_of(s[i]),
        keys_unique(s),
    ensures
        entries_view(s.update(i, x)) =~= entries_view(s).insert(key_of(x), record_of(x)),
    decreases s.len(),
{
    let t = s.update(i, x);
    if i == s.len() - 1 {
        assert(t.drop_last() =~= s.drop_last());
        if s.len() > 1 {
            lemma_view_absent_last(s);
        }
    } else {
        assert(t.drop_last() =~= s.drop_last().update(i, x));
        lemma_view_update(s.drop_last(), i, x);
    }
}

proof fn lemma_view_absent_last(s: Seq<ValueState>)
    requires
        keys_unique(s),
        s.len() > 0,
    ensures
        !entries_view(s.drop_last()).contains_key(key_of(s.last())),
{
    let d = s.drop_last();
    assert forall|j: int| 0 <= j < d.len() implies key_of(#[trigger] d[j]) != key_of(s.last()) by {
        assert(d[j] == s[j]);
    }
    lemma_view_absent(d, key_of(s.last()));
}

/// The override store of one evaluation thread. `O` is the observer that
/// tooling registers; `trigger` notifies it of each evaluation.
pub struct DebugHookState<O> {
    pub value_states: Vec<ValueState>,
    pub observer: Option<O>,
}

/// What an observer receives for each evaluation of a hooked binding.
pub struct Notification {
    pub id: String,
    pub repeat_count: usize,
    pub values: PropertyValueOverride,
}

/// What tooling implements to watch hooked bindings: told, for each
/// evaluation, the hook id, the repeat index and the key's record after it.
pub trait DebugHookObserver {
    fn notify(&self, id: &str, repeat_count: usize, values: &PropertyValueOverride);
}

impl<O: DebugHookObserver> DebugHookState<O> {
    /// Keys are unique.
    pub open spec fn wf(&self) -> bool {
        keys_unique(self.value_states@)
    }

    /// The store as a map from (id, repeat index) to record.
    pub open spec fn view(&self) -> Map<(Seq<char>, usize), HookRecord> {
        entries_view(self.value_states@)
    }

    /// An empty store with no observer.
    pub fn new() -> (r: DebugHookState<O>)
        ensures
            r.wf(),
            r.view() == Map::<(Seq<char>, usize), HookRecord>::empty(),
            r.observer.is_none(),
    {
        DebugHookState { value_states: Vec::new(), observer: None }
    }

    /// Installs or removes the observer.
    pub fn set_observer(&mut self, func: Option<O>)
        ensures
            final(self).value_states@ == old(self).value_states@,
            final(self).observer == func,
    {
        self.observer = func;
    }

    /// The index of the entry for the key, which is created fresh if absent.
    fn entry_index(&mut self, id: &String, repeat_count: usize) -> (i: usize)
        requires
            old(self).wf(),
        ensures
            final(self).wf(),
            final(self).observer == old(self).observer,
            i < final(self).value_states@.len(),
            key_of(final(self).value_states@[i as int]) == (id@, repeat_count),
            final(self).view() == old(self).view().insert(
                (id@, repeat_count),
                record_or_fresh(old(self).view(), (id@, repeat_count)),
            ),
    {
        let ghost k = (id@, repeat_count);
        let n = self.value_states.len();
        let mut i: usize = 0;
        while i < n
            invariant
                n == self.value_states@.len(),
                k == (id@, repeat_count),
                self.value_states@ == old(self).value_states@,
                self.observer == old(self).observer,
                self.wf(),
                i <= n,
                forall|j: int| 0 <= j < i ==> key_of(#[trigger] self.value_states@[j]) != k,
            decreases n - i,
        {
            let same_id = self.value_states[i].id.eq(id);
            if self.value_states[i].repeat_count == repeat_count && same_id {
                assert(key_of(self.value_states@[i as int]) == k);
                proof {
                    lemma_view_at(self.value_states@, i as int);
                    assert(self.view().insert(k, self.view()[k]) =~= self.view());
                }
                return i;
            }
            i = i + 1;
        }
        proof {
            lemma_view_absent(self.value_states@, k);
        }
        let st = ValueState {
            id: id.clone(),
            repeat_count,
            values: PropertyValueOverride::new(),
            override_generation: 0,
        };
        self.value_states.push(st);
        proof {
            let s = self.value_states@;
            assert(s.drop_last() =~= old(self).value_states@);
            assert forall|a: int, b: int|
                0 <= a < s.len() && 0 <= b < s.len() && a != b implies key_of(#[trigger] s[a])
                != key_of(#[trigger] s[b]) by {
                if a < n && b < n {
                    assert(s[a] == old(self).value_states@[a]);
                    assert(s[b] == old(self).value_states@[b]);
                }
            }
        }
        n
    }

    /// Called each time a hooked binding is evaluated: records the value,
    /// notifies the observer if one is registered, and returns what the
    /// program is to use, the override if one is set, together with what
    /// the observer was told.
    pub fn trigger(&mut self, instance: &ComponentInstance, id: &String, value: Value) -> (r: (
        Value,
        Option<Notification>,
    ))
        requires
            old(self).wf(),
        ensures
            final(self).wf(),
            final(self).observer == old(self).observer,
            ({
                let k = (id@, 0usize);
                let rec = record_or_fresh(old(self).view(), k);
                &&& final(self).view() == old(self).view().insert(k, triggered(rec, value))
                &&& r.0 == triggered_result(rec, value)
                &&& old(self).observer.is_some() <==> r.1.is_some()
                &&& r.1.is_some() ==> r.1.unwrap().id@ == id@ && r.1.unwrap().repeat_count == 0
                    && r.1.unwrap().values == triggered(rec, value).0
            }),
    {
        let repeat_count = find_repeat_count(instance);
        let i = self.entry_index(id, repeat_count);
        let ghost s0 = self.value_states@;
        let mut st = self.value_states[i].values;
        if st.initial_value.is_none() {
            st.initial_value = Some(value);
        }
        st.program_value = Some(value);
        let generation = self.value_states[i].override_generation;
        let entry = ValueState { id: id.clone(), repeat_count, values: st, override_generation: generation };
        proof {
            lemma_view_at(s0, i as int);
        }
        self.value_states.set(i, entry);
        proof {
            lemma_view_update(s0, i as int, entry);
            assert(self.value_states@ == s0.update(i as int, entry));
            assert forall|a: int, b: int|
                0 <= a < self.value_states@.len() && 0 <= b < self.value_states@.len() && a != b implies key_of(
                #[trigger] self.value_states@[a]) != key_of(#[trigger] self.value_states@[b]) by {
                assert(key_of(self.value_states@[a]) == key_of(s0[a]));
                assert(key_of(self.value_states@[b]) == key_of(s0[b]));
            }
        }
        let note = match &self.observer {
            Some(observer) => {
                observer.notify(id.as_str(), repeat_count, &st);
                Some(Notification { id: id.clone(), repeat_count, values: st })
            },
            None => None,
        };
        let result = match st.override_value {
            Some(o) => o,
            None => value,
        };
        (result, note)
    }

    /// Sets (or, with `None`, clears) the override of a key and returns the
    /// key's new generation.
    pub fn set_override(&mut self, id: &String, repeat_count: usize, value: Option<Value>) -> (r: i32)
        requires
            old(self).wf(),
        ensures
            final(self).wf(),
            final(self).observer == old(self).observer,
            ({
                let k = (id@, repeat_count);
                let rec = record_or_fresh(old(self).view(), k);
                &&& final(self).view() == old(self).view().insert(k, overridden(rec, value))
                &&& r == rec.1.wrapping_add(1)
            }),
    {
        let i = self.entry_index(id, repeat_count);
        let ghost s0 = self.value_states@;
        let mut st = self.value_states[i].values;
        let generation = self.value_states[i].override_generation.wrapping_add(1);
        st.override_value = value;
        let entry = ValueState { id: id.clone(), repeat_count, values: st, override_generation: generation };
        proof {
            lemma_view_at(s0, i as int);
        }
        self.value_states.set(i, entry);
        proof {
            lemma_view_update(s0, i as int, entry);
            assert forall|a: int, b: int|
                0 <= a < self.value_states@.len() && 0 <= b < self.value_states@.len() && a != b implies key_of(
                #[trigger] self.value_states@[a]) != key_of(#[trigger] self.value_states@[b]) by {
                assert(key_of(self.value_states@[a]) == key_of(s0[a]));
                assert(key_of(self.value_states@[b]) == key_of(s0[b]));
            }
        }
        generation
    }

    /// A snapshot of the record of a key, which is created fresh if absent.
    pub fn get_override_state(&mut self, id: &String, repeat_count: usize) -> (r: PropertyValueOverride)
        requires
            old(self).wf(),
        ensures
            final(self).wf(),
            final(self).observer == old(self).observer,
            r == record_or_fresh(old(self).view(), (id@, repeat_count)).0,
            final(self).view() == old(self).view().insert(
                (id@, repeat_count),
                record_or_fresh(old(self).view(), (id@, repeat_count)),
            ),
    {
        let i = self.entry_index(id, repeat_count);
        proof {
            lemma_view_at(self.value_states@, i as int);
        }
        self.value_states[i].values
    }
}

/// The life of one key's record: the first evaluation sets the initial and
/// the program value alike; a later one replaces the program value only;
/// while an override is set every evaluation yields it, whatever the
/// program computed; once it is cleared the latest program value is yielded
/// again; and each change of the override moves the generation on by one,
/// modulo wraparound.
pub proof fn lemma_override_lifecycle(rec: HookRecord, a: Value, b: Value, v: Value)
    ensures
        triggered(fresh_record(), a).0.initial_value == Some(a),
        triggered(fresh_record(), a).0.program_value == Some(a),
        triggered(triggered(rec, a), b).0.initial_value == triggered(rec, a).0.initial_value,
        triggered(triggered(rec, a), b).0.program_value == Some(b),
        triggered_result(overridden(rec, Some(v)), a) == v,
        triggered_result(triggered(overridden(rec, Some(v)), a), b) == v,
        triggered_result(overridden(triggered(overridden(rec, Some(v)), a), None), b) == b,
        overridden(rec, Some(v)).1 == rec.1.wrapping_add(1),
        overridden(rec, None).1 == rec.1.wrapping_add(1),
        rec.1 < i32::MAX ==> overridden(rec, Some(v)).1 > rec.1,
{
}

} // verus!
