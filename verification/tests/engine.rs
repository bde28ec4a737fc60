use samara_signals::keys::LinkKey;
use samara_signals::keys::NodeKey;
use samara_signals::steps::CheckStep;
use samara_signals::steps::DirtyWalk;
use samara_signals::steps::RunEvent;
use samara_signals::steps::RunStep;
use samara_signals::steps::TrackEvent;
use samara_signals::steps::TrackStep;
use samara_signals::steps::UpdateStep;
use samara_signals::system::ReactiveSystem;
use samara_signals::types::SignalMiss;
use samara_signals::types::SignalNode;
use samara_signals::values::ComputedNodeInner;
use samara_signals::values::ComputedOps;
use samara_signals::values::MemoNodeInner;
use std::any::Any;
use std::any::TypeId;
use std::cell::RefCell;
use std::collections::HashMap;
use std::marker::PhantomData;
use std::ops::Deref;
use std::ops::DerefMut;
use std::rc::Rc;

fn signal_state(s: &ReactiveSystem, node: NodeKey) -> SignalNode {
    match s.signal(node) {
        Ok(state) => *state,
        Err(SignalMiss::Destroyed) => panic!("Signal accessed after cleanup"),
        Err(SignalMiss::OtherKind) => panic!("Node is not a Signal"),
    }
}

// ---------------------------------------------------------------------------
// A host for the engine: it keeps the values and the callables, runs them when
// the engine asks for it, and hands the outcome back.
// ---------------------------------------------------------------------------

const ROOM: usize = 0xffff_fffe;

trait Derived {
    fn recompute(&self) -> bool;
    fn as_any(&self) -> &dyn Any;
}

struct PlainCell<T> {
    getter: Box<dyn Fn(Option<T>) -> T>,
    inner: RefCell<ComputedNodeInner<Rc<T>>>,
}

impl<T: 'static> Derived for PlainCell<T> {
    fn recompute(&self) -> bool {
        let last = self.inner.borrow_mut().value.take();
        let prev = last.and_then(|rc| Rc::try_unwrap(rc).ok());
        let value = (self.getter)(prev);
        let mut inner = self.inner.borrow_mut();
        inner.update(Rc::new(value));
        inner.dirty()
    }

    fn as_any(&self) -> &dyn Any {
        self
    }
}

struct MemoCell<T> {
    getter: Box<dyn Fn() -> T>,
    inner: RefCell<MemoNodeInner<Rc<T>>>,
}

impl<T: PartialEq + 'static> Derived for MemoCell<T> {
    fn recompute(&self) -> bool {
        let value = (self.getter)();
        let mut inner = self.inner.borrow_mut();
        inner.update(Rc::new(value));
        inner.dirty()
    }

    fn as_any(&self) -> &dyn Any {
        self
    }
}

#[derive(Default)]
struct Tables {
    values: HashMap<NodeKey, Rc<dyn Any>>,
    derived: HashMap<NodeKey, Rc<dyn Derived>>,
    effects: HashMap<NodeKey, Rc<dyn Fn()>>,
    cleanups: HashMap<u64, Box<dyn FnOnce()>>,
    next_cleanup: u64,
    types: HashMap<TypeId, u64>,
    contexts: Vec<Rc<dyn Any>>,
}

pub struct Rt {
    sys: RefCell<ReactiveSystem>,
    tables: RefCell<Tables>,
}

fn runtime() -> &'static Rt {
    Box::leak(Box::new(Rt { sys: RefCell::new(ReactiveSystem::new()), tables: RefCell::new(Tables::default()) }))
}

impl Rt {
    fn with<R>(&self, f: impl FnOnce(&mut ReactiveSystem) -> R) -> R {
        let mut sys = self.sys.borrow_mut();
        f(&mut sys)
    }

    fn room_for_node(&'static self) {
        self.with(|s| {
            assert!(s.contains(s.current_scope()), "the current scope was disposed of");
            assert!(s.count().0 < ROOM && s.count().1 < ROOM, "the arena is full");
        });
    }

    fn room_for_pass(&'static self) {
        self.with(|s| {
            assert!(s.cycle < usize::MAX, "out of cycles");
            assert!(s.count().1 < ROOM, "the arena is full");
        });
    }

    fn sweep(&'static self) {
        let sys = self.sys.borrow();
        let mut t = self.tables.borrow_mut();
        t.values.retain(|k, _| sys.contains(*k));
        t.derived.retain(|k, _| sys.contains(*k));
        t.effects.retain(|k, _| sys.contains(*k));
    }

    pub fn count(&'static self) -> (usize, usize) {
        self.with(|s| s.count())
    }

    // ----- signals -----

    pub fn signal<T: 'static>(&'static self, initial: T) -> Signal<T> {
        self.room_for_node();
        let node = self.with(|s| s.signal_new());
        let cell: Rc<dyn Any> = Rc::new(RefCell::new(Some(Rc::new(initial))));
        self.tables.borrow_mut().values.insert(node, cell);
        Signal { rt: self, node, marker: PhantomData }
    }

    fn cell<T: 'static>(&'static self, node: NodeKey) -> Rc<dyn Any> {
        self.with(|s| signal_state(s, node));
        let cell = self.tables.borrow().values.get(&node).cloned();
        cell.expect("Signal accessed after cleanup")
    }

    fn snapshot<T: 'static>(&'static self, node: NodeKey) -> Rc<T> {
        let cell = self.cell::<T>(node);
        let slot = cell.downcast_ref::<RefCell<Option<Rc<T>>>>().expect("Node is not a Signal");
        let value = slot.borrow().clone();
        value.expect("Cannot borrow signal as readable while already borrowed as writable")
    }

    fn take_value<T: 'static>(&'static self, node: NodeKey) -> Option<Rc<T>> {
        let cell = self.cell::<T>(node);
        let slot = cell.downcast_ref::<RefCell<Option<Rc<T>>>>().expect("Node is not a Signal");
        let value = slot.borrow_mut().take();
        value
    }

    fn put_value<T: 'static>(&'static self, node: NodeKey, value: Rc<T>) {
        let cell = self.tables.borrow().values.get(&node).cloned();
        if let Some(cell) = cell {
            if let Some(slot) = cell.downcast_ref::<RefCell<Option<Rc<T>>>>() {
                *slot.borrow_mut() = Some(value);
            }
        }
    }

    fn borrow_read(&'static self, node: NodeKey) {
        self.with(|s| {
            let state = signal_state(s, node);
            assert!(state.readable(), "Cannot borrow signal as readable while already borrowed as writable");
            s.signal_borrow_read_check(node);
        });
    }

    fn borrow_write(&'static self, node: NodeKey) {
        self.with(|s| {
            let state = signal_state(s, node);
            assert!(state.writable(), "Cannot borrow signal as writable while already borrowed");
            s.signal_borrow_write_check(node);
        });
    }

    fn signal_track(&'static self, node: NodeKey) {
        assert!(self.with(|s| s.contains(node)), "Signal accessed after cleanup");
        self.room_for_pass();
        self.with(|s| s.signal_track(node));
    }

    fn signal_notify(&'static self, node: NodeKey) {
        let due = self.with(|s| s.signal_notify(node));
        if due {
            self.flush();
        }
    }

    // ----- computed -----

    pub fn memo<T: PartialEq + 'static, F: Fn() -> T + 'static>(&'static self, getter: F) -> Computed<T> {
        self.room_for_node();
        let node = self.with(|s| s.computed_memo());
        let cell: Rc<dyn Derived> =
            Rc::new(MemoCell { getter: Box::new(getter), inner: RefCell::new(MemoNodeInner::new()) });
        self.tables.borrow_mut().derived.insert(node, cell);
        Computed { rt: self, node, marker: PhantomData }
    }

    pub fn computed<T: 'static, F: Fn(Option<T>) -> T + 'static>(&'static self, getter: F) -> Computed<T> {
        self.room_for_node();
        let node = self.with(|s| s.computed_new());
        let cell: Rc<dyn Derived> =
            Rc::new(PlainCell { getter: Box::new(getter), inner: RefCell::new(ComputedNodeInner::new()) });
        self.tables.borrow_mut().derived.insert(node, cell);
        Computed { rt: self, node, marker: PhantomData }
    }

    fn recompute(&'static self, node: NodeKey) -> bool {
        let cell = self.tables.borrow().derived.get(&node).cloned();
        match cell {
            Some(cell) => cell.recompute(),
            None => false,
        }
    }

    fn update(&'static self, node: NodeKey) -> bool {
        self.room_for_pass();
        match self.with(|s| s.update(node)) {
            UpdateStep::Compute(prev) => {
                let changed = self.recompute(node);
                self.with(|s| s.end_update(node, prev));
                changed
            }
            UpdateStep::Settled => true,
        }
    }

    fn check_dirty(&'static self, link: LinkKey, sub: NodeKey) -> bool {
        let mut walk = DirtyWalk::new(link, sub);
        let mut reply = None;
        loop {
            match self.with(|s| s.check_dirty(&mut walk, reply)) {
                CheckStep::Continue => reply = None,
                CheckStep::Update(node) => reply = Some(self.update(node)),
                CheckStep::Done(dirty) => return dirty,
            }
        }
    }

    fn computed_track(&'static self, node: NodeKey) {
        assert!(self.with(|s| s.contains(node)), "Node is not a Computed");
        let mut event = TrackEvent::Start;
        loop {
            self.room_for_pass();
            match self.with(|s| s.computed_track(node, event)) {
                TrackStep::Check(link) => event = TrackEvent::Checked(self.check_dirty(link, node)),
                TrackStep::Compute(rc) => event = TrackEvent::Computed(rc, self.recompute(node)),
                TrackStep::Done => break,
            }
        }
    }

    fn computed_value<T: 'static>(&'static self, node: NodeKey) -> Rc<T> {
        let cell = self.tables.borrow().derived.get(&node).cloned().expect("Node is not a Computed");
        if let Some(memo) = cell.as_any().downcast_ref::<MemoCell<T>>() {
            return memo.inner.borrow().value().clone();
        }
        let plain = cell.as_any().downcast_ref::<PlainCell<T>>().expect("Node is not a Computed");
        let value = plain.inner.borrow().value().clone();
        value
    }

    // ----- effects and scopes -----

    pub fn effect<F: Fn() + 'static>(&'static self, f: F) -> Effect {
        self.room_for_node();
        let (node, frame) = self.with(|s| s.new_effect());
        let f: Rc<dyn Fn()> = Rc::new(f);
        self.tables.borrow_mut().effects.insert(node, f.clone());
        f();
        self.with(|s| s.end_effect(node, frame));
        Effect { rt: self, node }
    }

    pub fn scope<F: FnOnce()>(&'static self, f: F) -> Scope {
        self.room_for_node();
        let (node, frame) = self.with(|s| s.new_scope());
        f();
        self.with(|s| s.end_scope(frame));
        Scope { rt: self, node }
    }

    pub fn scoped<T, U>(&'static self, f: impl Fn(T) -> U + 'static) -> impl Fn(T) -> (U, Scope) {
        let parent = self.with(|s| s.current_scope());
        move |t| {
            self.with(|s| {
                assert!(s.contains(parent), "the scope was disposed of");
                assert!(s.count().0 < ROOM, "the arena is full");
            });
            let node = self.with(|s| s.new_child_scope(parent));
            let prev = self.with(|s| s.current_scope());
            self.with(|s| s.set_current_scope(node));
            let result = f(t);
            self.with(|s| s.set_current_scope(prev));
            (result, Scope { rt: self, node })
        }
    }

    fn call_cleanups(&'static self, ids: Vec<u64>) {
        for id in ids {
            let f = self.tables.borrow_mut().cleanups.remove(&id);
            if let Some(f) = f {
                f();
            }
        }
    }

    fn dispose(&'static self, node: NodeKey) {
        if !self.with(|s| s.contains(node)) {
            return;
        }
        let ids = self.with(|s| s.cleanup_scope(node));
        self.call_cleanups(ids);
        self.with(|s| s.dispose_scope(node));
        self.sweep();
    }

    pub fn cleanup(&'static self) {
        let ids = self.with(|s| {
            let root = s.root();
            s.cleanup_scope(root)
        });
        self.call_cleanups(ids);
        self.with(|s| s.cleanup());
        self.sweep();
    }

    pub fn on_cleanup<F: FnOnce() + 'static>(&'static self, f: F) {
        assert!(self.with(|s| s.contains(s.current_scope())), "the current scope was disposed of");
        let id = {
            let mut t = self.tables.borrow_mut();
            let id = t.next_cleanup;
            t.next_cleanup += 1;
            t.cleanups.insert(id, Box::new(f));
            id
        };
        self.with(|s| s.on_cleanup(id));
    }

    fn run(&'static self, node: NodeKey) {
        let mut event = RunEvent::Start;
        loop {
            self.room_for_pass();
            match self.with(|s| s.run(node, event)) {
                RunStep::Check(link) => event = RunEvent::Checked(self.check_dirty(link, node)),
                RunStep::Cleanup(ids) => {
                    self.call_cleanups(ids);
                    event = RunEvent::Cleaned;
                }
                RunStep::Invoke(frame) => {
                    self.sweep();
                    let f = self.tables.borrow().effects.get(&node).cloned();
                    if let Some(f) = f {
                        f();
                    }
                    event = RunEvent::Ran(frame);
                }
                RunStep::Done => break,
            }
        }
    }

    fn flush(&'static self) {
        while let Some(effect) = self.with(|s| s.flush()) {
            self.run(effect);
        }
    }

    pub fn start_batch(&'static self) {
        self.with(|s| {
            assert!(s.batch_depth < usize::MAX);
            s.start_batch()
        });
    }

    pub fn end_batch(&'static self) {
        let due = self.with(|s| {
            assert!(s.batch_depth > 0, "no batch is open");
            s.end_batch()
        });
        if due {
            self.flush();
        }
    }

    pub fn trigger<F: Fn()>(&'static self, f: F) {
        self.room_for_node();
        let (sub, prev) = self.with(|s| s.trigger());
        f();
        let due = self.with(|s| s.end_trigger(sub, prev));
        if due {
            self.flush();
        }
        self.with(|s| s.dispose_scope(sub));
    }

    // ----- context -----

    pub fn provide_context<T: 'static>(&'static self, value: T) {
        assert!(self.with(|s| s.contains(s.current_scope())), "the current scope was disposed of");
        let (tag, handle) = {
            let mut t = self.tables.borrow_mut();
            let next = t.types.len() as u64;
            let tag = *t.types.entry(TypeId::of::<T>()).or_insert(next);
            let handle = t.contexts.len() as u64;
            t.contexts.push(Rc::new(value));
            (tag, handle)
        };
        self.with(|s| s.provide_context(tag, handle));
    }

    fn context_handle<T: 'static>(&'static self) -> Option<Rc<dyn Any>> {
        let tag = self.tables.borrow().types.get(&TypeId::of::<T>()).copied()?;
        let handle = self.with(|s| s.use_context(tag))?;
        self.tables.borrow().contexts.get(handle as usize).cloned()
    }

    pub fn use_context<T: Clone + 'static>(&'static self) -> Option<T> {
        self.context_handle::<T>().and_then(|v| v.downcast_ref::<T>().cloned())
    }

    pub fn has_context<T: 'static>(&'static self) -> bool {
        match self.tables.borrow().types.get(&TypeId::of::<T>()).copied() {
            Some(tag) => self.with(|s| s.has_context(tag)),
            None => false,
        }
    }
}

// ----- handles -----

pub struct Signal<T> {
    rt: &'static Rt,
    node: NodeKey,
    marker: PhantomData<T>,
}

impl<T> Clone for Signal<T> {
    fn clone(&self) -> Self {
        *self
    }
}

impl<T> Copy for Signal<T> {}

impl<T: 'static> Signal<T> {
    pub fn get(&self) -> T
    where
        T: Clone,
    {
        self.rt.signal_track(self.node);
        (*self.rt.snapshot::<T>(self.node)).clone()
    }

    pub fn set(&self, value: T) {
        self.rt.borrow_write(self.node);
        self.rt.put_value(self.node, Rc::new(value));
        self.rt.with(|s| s.signal_release_write(self.node));
        self.rt.signal_notify(self.node);
    }

    pub fn update(&self, f: impl FnOnce(&mut T)) {
        let mut value = self.rt.take_value::<T>(self.node).expect("the signal's value is borrowed");
        f(Rc::get_mut(&mut value).expect("the signal's value is borrowed"));
        self.rt.put_value(self.node, value);
        self.rt.signal_notify(self.node);
    }

    pub fn peek(&self) -> SignalReadGuard<T> {
        self.rt.borrow_read(self.node);
        SignalReadGuard { rt: self.rt, node: self.node, held: self.rt.snapshot::<T>(self.node) }
    }

    pub fn read(&self) -> SignalReadGuard<T> {
        self.rt.borrow_read(self.node);
        self.rt.signal_track(self.node);
        SignalReadGuard { rt: self.rt, node: self.node, held: self.rt.snapshot::<T>(self.node) }
    }

    pub fn write(&self) -> SignalWriteGuard<T> {
        self.rt.borrow_write(self.node);
        let value = self.rt.take_value::<T>(self.node).expect("the signal's value is borrowed");
        SignalWriteGuard { rt: self.rt, node: self.node, held: Some(value) }
    }
}

pub struct SignalReadGuard<T: 'static> {
    rt: &'static Rt,
    node: NodeKey,
    held: Rc<T>,
}

impl<T: 'static> Deref for SignalReadGuard<T> {
    type Target = T;

    fn deref(&self) -> &T {
        &self.held
    }
}

impl<T: 'static> Drop for SignalReadGuard<T> {
    fn drop(&mut self) {
        let node = self.node;
        self.rt.with(|s| {
            if let Ok(state) = s.signal(node) {
                if let samara_signals::types::BorrowState::Reading(_) = state.borrow_state {
                    s.signal_release_read(node);
                }
            }
        });
    }
}

pub struct SignalWriteGuard<T: 'static> {
    rt: &'static Rt,
    node: NodeKey,
    held: Option<Rc<T>>,
}

impl<T: 'static> Deref for SignalWriteGuard<T> {
    type Target = T;

    fn deref(&self) -> &T {
        self.held.as_ref().expect("the guard holds the value")
    }
}

impl<T: 'static> DerefMut for SignalWriteGuard<T> {
    fn deref_mut(&mut self) -> &mut T {
        Rc::get_mut(self.held.as_mut().expect("the guard holds the value")).expect("the signal's value is borrowed")
    }
}

impl<T: 'static> Drop for SignalWriteGuard<T> {
    fn drop(&mut self) {
        let node = self.node;
        let alive = self.rt.with(|s| match s.signal(node) {
            Ok(state) => {
                if let samara_signals::types::BorrowState::Writing = state.borrow_state {
                    s.signal_release_write(node);
                }
                true
            }
            Err(_) => false,
        });
        if !alive {
            return;
        }
        if let Some(value) = self.held.take() {
            self.rt.put_value(node, value);
        }
        self.rt.signal_notify(node);
    }
}

pub struct Computed<T> {
    rt: &'static Rt,
    node: NodeKey,
    marker: PhantomData<T>,
}

impl<T> Clone for Computed<T> {
    fn clone(&self) -> Self {
        *self
    }
}

impl<T> Copy for Computed<T> {}

pub struct ComputedRef<T> {
    held: Rc<T>,
}

impl<T> Deref for ComputedRef<T> {
    type Target = T;

    fn deref(&self) -> &T {
        &self.held
    }
}

impl<T: 'static> Computed<T> {
    pub fn track(&self) {
        self.rt.computed_track(self.node);
    }

    pub fn get(&self) -> T
    where
        T: Clone,
    {
        self.rt.computed_track(self.node);
        (*self.rt.computed_value::<T>(self.node)).clone()
    }

    pub fn read(&self) -> ComputedRef<T> {
        self.rt.computed_track(self.node);
        ComputedRef { held: self.rt.computed_value::<T>(self.node) }
    }

    pub fn peek(&self) -> ComputedRef<T> {
        ComputedRef { held: self.rt.computed_value::<T>(self.node) }
    }
}

#[derive(Clone, Copy)]
pub struct Effect {
    rt: &'static Rt,
    node: NodeKey,
}

impl Effect {
    pub fn dispose(&self) {
        self.rt.dispose(self.node);
    }
}

#[derive(Clone, Copy)]
pub struct Scope {
    rt: &'static Rt,
    node: NodeKey,
}

impl Scope {
    pub fn dispose(&self) {
        self.rt.dispose(self.node);
    }
}

// ----- values that the tests provide as context -----

#[derive(PartialEq, Clone, Debug)]
enum Shade {
    Light,
    Dark,
}

#[derive(Clone, Debug, PartialEq)]
struct Theme(String);

#[derive(Clone, Debug, PartialEq)]
struct Config(i32);

#[test]
fn test_provide_and_use_context() {
    let rt = runtime();
    rt.provide_context(Shade::Light);
    rt.scope(|| {
        rt.provide_context(Shade::Dark);

        let theme = rt.use_context::<Shade>().unwrap();
        assert_eq!(theme, Shade::Dark);
    });
}

#[test]
fn test_context_inheritance() {
    let rt = runtime();
    rt.scope(|| {
        rt.provide_context(Shade::Dark);

        rt.scope(|| {
            // Child can access parent's context
            let theme = rt.use_context::<Shade>().unwrap();
            assert_eq!(theme, Shade::Dark);
        });
    });
}

#[test]
fn test_context_not_found() {
    let rt = runtime();
    rt.scope(|| {
        let theme = rt.use_context::<Shade>();
        assert!(theme.is_none());
    });
}

#[test]
fn test_has_context() {
    let rt = runtime();
    rt.scope(|| {
        assert!(!rt.has_context::<Shade>());

        rt.provide_context(Shade::Dark);
        assert!(rt.has_context::<Shade>());

        rt.scope(|| {
            // Child sees parent's context
            assert!(rt.has_context::<Shade>());
        });
    });
}

#[test]
fn test_context_with_signals() {
    let rt = runtime();
    rt.scope(|| {
        rt.provide_context(Shade::Dark);

        rt.scope(move || {
            // Can use both context and signals
            let sig = rt.signal(42);

            let theme = rt.use_context::<Shade>().unwrap();
            assert_eq!(theme, Shade::Dark);

            let value = sig.get();
            assert_eq!(value, 42);
        });
    });
}

#[test]
fn test_batch_basic() {
    let rt = runtime();
    let s = rt.signal(1i32);
    let value = Rc::new(RefCell::new(0i32));

    let value_for_closure = value.clone();
    let _effect = rt.effect(move || {
        *value_for_closure.borrow_mut() = s.get();
    });

    assert_eq!(*value.borrow(), 1);

    rt.start_batch();
    s.set(2);
    s.set(3);
    assert_eq!(*value.borrow(), 1); // Should not run yet
    rt.end_batch();

    assert_eq!(*value.borrow(), 3); // Should run once with final value
}

#[test]
fn test_batch_nested() {
    let rt = runtime();
    let s1 = rt.signal(1i32);
    let s2 = rt.signal(1i32);
    let value = Rc::new(RefCell::new(0i32));

    let value_for_closure = value.clone();
    let _effect = rt.effect(move || {
        *value_for_closure.borrow_mut() = s1.get() + s2.get();
    });

    assert_eq!(*value.borrow(), 2);

    rt.start_batch();
    s1.set(2);
    rt.start_batch();
    s2.set(2);
    rt.end_batch();
    rt.end_batch();

    assert_eq!(*value.borrow(), 4);
}

#[test]
fn test_multiple_concurrent_read_guards() {
    let rt = runtime();
    let s = rt.signal(42i32);
    let guard1 = s.read();
    let guard2 = s.read();
    let guard3 = s.read();
    assert_eq!(*guard1, 42);
    assert_eq!(*guard2, 42);
    assert_eq!(*guard3, 42);
}

#[test]
fn test_sequential_read_and_write() {
    let rt = runtime();
    let s = rt.signal(42i32);
    {
        let guard = s.read();
        assert_eq!(*guard, 42);
    }
    {
        let mut guard = s.write();
        *guard = 100;
    }
    assert_eq!(s.get(), 100);
}

#[test]
fn test_guard_drop_releases_borrow() {
    let rt = runtime();
    let s = rt.signal(42i32);
    {
        let _guard = s.write();
    }
    let _guard2 = s.read(); // Should work after drop
}

#[test]
#[should_panic]
fn test_write_then_read_panics() {
    let rt = runtime();
    let s = rt.signal(42i32);
    let _write_guard = s.write();
    let _read_guard = s.read(); // Panic
}

#[test]
#[should_panic]
fn test_read_then_write_panics() {
    let rt = runtime();
    let s = rt.signal(42i32);
    let _read_guard = s.read();
    let _write_guard = s.write(); // Panic
}

#[test]
#[should_panic]
fn test_multiple_write_guards_panics() {
    let rt = runtime();
    let s = rt.signal(42i32);
    let _guard1 = s.write();
    let _guard2 = s.write(); // Panic
}

#[test]
#[should_panic]
fn test_write_guard_prevents_peek() {
    let rt = runtime();
    let s = rt.signal(42i32);
    let _write_guard = s.write();
    let _ = s.peek(); // Panic
}

#[test]
#[should_panic]
fn test_read_guard_prevents_set() {
    let rt = runtime();
    let s = rt.signal(42i32);
    let _read_guard = s.read();
    s.set(100); // Panic - cannot set while reading
}

#[test]
#[should_panic]
fn test_write_guard_prevents_set() {
    let rt = runtime();
    let s = rt.signal(42i32);
    let _write_guard = s.write();
    s.set(100); // Panic - cannot set while writing
}

#[test]
fn test_scope_cleanup_removes_nodes() {
    let rt = runtime();
    let scope = rt.scope(|| {
        let _s = rt.signal(1);
        let _c = rt.memo(|| {
            let s = rt.signal(1);
            s.get() * 2
        });
        let _e = rt.effect(|| {
            let s = rt.signal(1);
            s.get();
        });
    });
    scope.dispose();
}

#[test]
fn cleanup_test_nested_scope_cleanup() {
    let rt = runtime();
    let outer = rt.scope(|| {
        let _s = rt.signal(1);
        let _inner = rt.scope(|| {
            let s = rt.signal(1);
            let _c = rt.memo(move || s.get() + 1);
        });
    });
    outer.dispose();
}

#[test]
fn test_links_removed_on_cleanup() {
    let rt = runtime();
    let vec = Rc::new(RefCell::new(Vec::<i32>::new()));
    let scope = rt.scope({
        let vec = vec.clone();
        move || {
            let s = rt.signal(1);
            let _c = rt.memo(move || s.get() + 1);
            rt.on_cleanup({
                let vec = vec.clone();
                move || {
                    vec.borrow_mut().push(0);
                }
            });
            rt.on_cleanup({
                let vec = vec.clone();
                move || {
                    vec.borrow_mut().push(1);
                }
            });
            rt.on_cleanup({
                let vec = vec.clone();
                move || {
                    vec.borrow_mut().push(2);
                }
            });
        }
    });

    assert_eq!(*vec.borrow(), Vec::<i32>::new());
    scope.dispose();
    assert_eq!(*vec.borrow(), vec![2, 1, 0]);
}

#[test]
fn test_scope_with_signal_cleanup() {
    let rt = runtime();
    let scope = rt.scope(|| {
        let s = rt.signal(1);
        let c = rt.memo(move || s.get() * 2);
        let _v = c.get();
        s.set(2);
        let _v2 = c.get();
    });
    scope.dispose();
}

#[test]
fn test_cleanup_is_idempotent() {
    let rt = runtime();
    let scope = rt.scope(|| {
        let _s = rt.signal(1);
        let _e = rt.effect(|| {
            let s = rt.signal(1);
            s.get();
        });
    });
    scope.dispose();
    scope.dispose();
}

#[test]
fn test_nested_effect_with_computed() {
    let rt = runtime();
    let s = rt.signal(1);

    rt.effect(move || {
        let c = rt.computed(move |_| s.get());
        c.get();

        rt.effect(move || {}).dispose();
        rt.effect(move || {}).dispose();
    });

    s.set(2);
    s.set(3);
}

#[test]
fn test_signal_access_in_cleanup() {
    let rt = runtime();
    let s = rt.signal(2);
    let cnt = rt.signal(0);
    let scope = rt.scope(move || {
        rt.effect(move || {
            let c = rt.computed(move |_| s.get() * 2);
            c.get();

            rt.on_cleanup(move || {
                *cnt.write() += 1;
                let t = rt.signal(0);
                t.read();
                assert_eq!(c.get(), s.get() * 2)
            });
        });
    });

    s.set(2);
    s.set(3);
    s.set(4);

    assert_eq!(cnt.get(), 3);

    scope.dispose();

    assert_eq!(cnt.get(), 4);
}

#[test]
fn test_nest_cleanup() {
    let rt = runtime();
    let vec = rt.signal(vec![]);
    rt.scope({
        move || {
            let s = rt.signal(1);
            let _c = rt.memo(move || s.get() + 1);
            rt.on_cleanup(move || vec.write().push(0));
            rt.on_cleanup(move || {
                vec.write().push(1);
            });
            rt.scope(move || {
                rt.on_cleanup(move || {
                    vec.write().push(11);
                });
                rt.on_cleanup(move || {
                    vec.write().push(12);
                });
            });
            rt.on_cleanup(move || {
                vec.write().push(2);
            });
            rt.scope(move || {
                rt.on_cleanup(move || {
                    vec.write().push(21);
                });
                rt.on_cleanup(move || {
                    vec.write().push(22);
                });

                rt.effect(move || {
                    rt.on_cleanup(move || {
                        vec.write().push(221);
                    });
                    rt.on_cleanup(move || {
                        vec.write().push(222);
                    });
                });
            });
            rt.on_cleanup(move || {
                vec.write().push(3);
            });
        }
    })
    .dispose();

    assert_eq!(vec.get(), vec![222, 221, 22, 21, 12, 11, 3, 2, 1, 0]);
}

#[test]
fn test_computed_basic() {
    let rt = runtime();
    let s = rt.signal(10i32);
    let c = rt.memo(move || s.get() * 2);

    assert_eq!(c.get(), 20);

    s.set(20);
    assert_eq!(c.get(), 40);
}

#[test]
fn test_computed_read() {
    let rt = runtime();
    let s = rt.signal(10i32);

    #[derive(PartialEq, Clone)]
    struct S {
        value: i32,
    }
    let c = rt.memo(move || S { value: s.get() * 2 });

    assert_eq!(c.read().value, 20);

    s.set(20);
    assert_eq!(c.read().value, 40);
}

#[test]
fn test_computed_caches_result() {
    let rt = runtime();
    let s = rt.signal(1i32);
    let computations = Rc::new(RefCell::new(0i32));

    let computations_for_closure = computations.clone();
    let c = rt.memo(move || {
        *computations_for_closure.borrow_mut() += 1;
        s.get() * 2
    });

    assert_eq!(*computations.borrow(), 0);

    c.get();
    assert_eq!(*computations.borrow(), 1);

    c.get();
    assert_eq!(*computations.borrow(), 1); // Should use cache

    s.set(2);
    c.get();
    assert_eq!(*computations.borrow(), 2); // Should recompute
}

#[test]
fn test_computed_chained() {
    let rt = runtime();
    let src = rt.signal(0i32);
    let a = rt.memo(move || src.get());
    let b = rt.memo(move || a.get() % 2);
    let c = rt.memo(move || src.get());
    let d = rt.memo(move || b.get() + c.get());

    assert_eq!(d.get(), 0);
    src.set(2);
    assert_eq!(d.get(), 2);
}

#[test]
fn test_computed_propagates_changes() {
    let rt = runtime();
    let src = rt.signal(0i32);
    let c1 = rt.memo(move || src.get() % 2);
    let c2 = rt.memo(move || c1.get());
    let c3 = rt.memo(move || c2.get());

    c3.get();
    src.set(1);
    c2.get();
    src.set(3);

    assert_eq!(c3.get(), 1);
}

#[test]
fn test_computed_with_effect() {
    let rt = runtime();
    let s = rt.signal(5i32);
    let c = rt.memo(move || s.get() + 1);
    let value = Rc::new(RefCell::new(0i32));

    let value_for_closure = value.clone();
    let _effect = rt.effect(move || {
        *value_for_closure.borrow_mut() = c.get();
    });

    assert_eq!(*value.borrow(), 6);

    s.set(10);
    assert_eq!(*value.borrow(), 11);
}

#[test]
fn test_computed_indirect_updates() {
    let rt = runtime();
    let a = rt.signal(false);
    let b = rt.memo(move || a.get());
    let c = rt.memo(move || {
        b.get();
        0
    });
    let d = rt.memo(move || {
        c.get();
        b.get()
    });

    assert_eq!(d.get(), false);
    a.set(true);
    assert_eq!(d.get(), true);
}

#[test]
fn test_multiple_computed_from_same_signal() {
    let rt = runtime();
    let src = rt.signal(10i32);
    let c1 = rt.memo(move || src.get() * 2);
    let c2 = rt.memo(move || src.get() + 5);
    let c3 = rt.memo(move || src.get() - 3);

    assert_eq!(c1.get(), 20);
    assert_eq!(c2.get(), 15);
    assert_eq!(c3.get(), 7);

    src.set(20);

    assert_eq!(c1.get(), 40);
    assert_eq!(c2.get(), 25);
    assert_eq!(c3.get(), 17);
}

#[test]
fn test_diamond_dependency() {
    let rt = runtime();
    let src = rt.signal(1i32);
    let left = rt.memo(move || src.get() + 1);
    let right = rt.memo(move || src.get() * 2);
    let diamond = rt.memo(move || left.get() + right.get());

    assert_eq!(diamond.get(), 4); // (1 + 1) + (1 * 2) = 4

    src.set(2);
    assert_eq!(diamond.get(), 7); // (2 + 1) + (2 * 2) = 7
}

#[test]
fn test_computed_propagate_chained() {
    let rt = runtime();
    let src = rt.signal(0i32);
    let a = rt.memo(move || src.get());
    let b = rt.memo(move || a.get() % 2);
    let c = rt.memo(move || src.get());
    let d = rt.memo(move || b.get() + c.get());

    assert_eq!(d.get(), 0);
    src.set(2);
    assert_eq!(d.get(), 2);
}

#[test]
fn test_computed_not_update_if_reverted() {
    let rt = runtime();
    let times = Rc::new(RefCell::new(0i32));
    let src = rt.signal(0i32);

    let times_for_closure = times.clone();
    let c1 = rt.memo(move || {
        *times_for_closure.borrow_mut() += 1;
        src.get()
    });

    c1.get();
    assert_eq!(*times.borrow(), 1);

    src.set(1);
    src.set(0);
    c1.get();
    assert_eq!(*times.borrow(), 2);
}

#[test]
fn test_memo_diamond_effect() {
    let rt = runtime();
    let src = rt.signal(1i32);
    let left = rt.memo(move || src.get() + 1);
    let right = rt.memo(move || src.get() * 2);
    let diamond = rt.memo(move || left.get() + right.get());

    let c = Rc::new(RefCell::new(0));
    rt.effect({
        let c = c.clone();
        move || {
            *c.borrow_mut() += 1;
            diamond.read();
        }
    });

    assert_eq!(diamond.get(), 4);

    src.set(2);
    assert_eq!(diamond.get(), 7);
    src.set(2);

    assert_eq!(*c.borrow(), 2);
}

#[test]
fn test_computed_diamond_effect() {
    let rt = runtime();
    let src = rt.signal(1i32);
    let left = rt.computed(move |_| src.get() + 1);
    let right = rt.computed(move |_| src.get() * 2);
    let diamond = rt.computed(move |_| left.get() + right.get());

    let c = Rc::new(RefCell::new(0));
    rt.effect({
        let c = c.clone();
        move || {
            *c.borrow_mut() += 1;
            diamond.read();
        }
    });

    assert_eq!(diamond.get(), 4);

    src.set(2);
    assert_eq!(*c.borrow(), 2);
    assert_eq!(diamond.get(), 7);

    src.set(2);
    assert_eq!(*c.borrow(), 3);
}

#[test]
fn test_integration_basic_provide_use() {
    let rt = runtime();
    rt.scope(|| {
        rt.provide_context(Theme(String::from("dark")));
        let theme = rt.use_context::<Theme>().unwrap();
        assert_eq!(theme, Theme(String::from("dark")));
    });
}

#[test]
fn test_integration_context_inheritance() {
    let rt = runtime();
    rt.scope(|| {
        rt.provide_context(Theme(String::from("light")));

        let parent_theme = rt.use_context::<Theme>().unwrap();
        assert_eq!(parent_theme, Theme(String::from("light")));

        rt.scope(|| {
            // Child inherits parent's context
            let child_theme = rt.use_context::<Theme>().unwrap();
            assert_eq!(child_theme, Theme(String::from("light")));
        });
    });
}

#[test]
fn test_integration_context_shadowing() {
    let rt = runtime();
    rt.scope(|| {
        rt.provide_context(Config(10));
        assert_eq!(rt.use_context::<Config>().unwrap(), Config(10));

        rt.scope(|| {
            rt.provide_context(Config(20)); // Shadows parent
            assert_eq!(rt.use_context::<Config>().unwrap(), Config(20));
        });

        // Back in parent, the parent's value is seen again
        assert_eq!(rt.use_context::<Config>().unwrap(), Config(10));
    });
}

#[test]
fn test_integration_multiple_context_types() {
    let rt = runtime();
    rt.scope(|| {
        rt.provide_context(Theme(String::from("dark")));
        rt.provide_context(Config(42));

        let theme = rt.use_context::<Theme>().unwrap();
        let config = rt.use_context::<Config>().unwrap();

        assert_eq!(theme, Theme(String::from("dark")));
        assert_eq!(config, Config(42));
    });
}

#[test]
fn test_integration_context_with_effects() {
    let rt = runtime();

    let effect_runs = Rc::new(RefCell::new(Vec::new()));
    let effect_runs_for_scope = effect_runs.clone();

    rt.scope(move || {
        rt.provide_context(Theme(String::from("dark")));
        let count = rt.signal(0);
        let effect_runs_clone = effect_runs_for_scope.clone();

        rt.effect(move || {
            let theme = rt.use_context::<Theme>().unwrap();
            let n = count.get();
            effect_runs_clone.borrow_mut().push((n, theme.clone()));
        });

        count.set(1);
        count.set(2);
    });

    let runs = effect_runs.borrow();
    assert_eq!(runs.len(), 3);
    assert_eq!(runs[0], (0, Theme(String::from("dark"))));
    assert_eq!(runs[1], (1, Theme(String::from("dark"))));
    assert_eq!(runs[2], (2, Theme(String::from("dark"))));
}

#[test]
fn test_integration_context_with_computed() {
    let rt = runtime();
    rt.scope(|| {
        rt.provide_context(Config(10));
        let multiplier = rt.signal(2);

        let doubled = rt.computed(move |_| {
            let config = rt.use_context::<Config>().unwrap();
            config.0 * multiplier.get()
        });

        assert_eq!(doubled.get(), 20);
        multiplier.set(3);
        assert_eq!(doubled.get(), 30);
    });
}

#[test]
fn test_integration_deeply_nested_scopes() {
    let rt = runtime();
    rt.scope(|| {
        rt.provide_context(Theme(String::from("root")));
        rt.provide_context(Config(100));

        rt.scope(|| {
            // Level 2: can access both contexts
            assert_eq!(rt.use_context::<Theme>().unwrap(), Theme(String::from("root")));
            assert_eq!(rt.use_context::<Config>().unwrap(), Config(100));

            rt.scope(|| {
                // Level 3: shadow Config
                rt.provide_context(Config(200));
                assert_eq!(rt.use_context::<Theme>().unwrap(), Theme(String::from("root")));
                assert_eq!(rt.use_context::<Config>().unwrap(), Config(200));

                rt.scope(|| {
                    // Level 4: shadow Theme
                    rt.provide_context(Theme(String::from("nested")));
                    assert_eq!(
                        rt.use_context::<Theme>().unwrap(),
                        Theme(String::from("nested"))
                    );
                    assert_eq!(rt.use_context::<Config>().unwrap(), Config(200));
                });

                assert_eq!(rt.use_context::<Theme>().unwrap(), Theme(String::from("root")));
                assert_eq!(rt.use_context::<Config>().unwrap(), Config(200));
            });

            assert_eq!(rt.use_context::<Theme>().unwrap(), Theme(String::from("root")));
            assert_eq!(rt.use_context::<Config>().unwrap(), Config(100));
        });
    });
}

#[test]
fn test_integration_context_cleanup_on_scope_disposal() {
    let rt = runtime();
    rt.scope(|| {
        rt.provide_context(Config(42));
        assert_eq!(rt.use_context::<Config>().unwrap(), Config(42));
    });

    // After scope is disposed, context should not be accessible
    assert!(rt.use_context::<Config>().is_none());
}

#[test]
fn test_scoped_basic_context() {
    let rt = runtime();
    rt.scope(|| {
        rt.provide_context(Theme(String::from("dark")));

        // Create scoped closure that captures current scope
        let scoped_fn = rt.scoped(|_: ()| {
            // Can access context from parent scope captured at creation time
            let ctx = rt.use_context::<Theme>().unwrap();
            ctx
        });

        let (context, _) = scoped_fn(());
        assert_eq!(context, Theme(String::from("dark")));

        rt.provide_context(Theme(String::from("light")));

        let (context, _) = scoped_fn(());
        assert_eq!(context, Theme(String::from("light")));
    });
}

#[test]
fn test_count_signal() {
    let rt = runtime();
    let (nodes_before, links_before) = rt.count();
    let _sig = rt.signal(42);
    let (nodes_after, links_after) = rt.count();

    // Creating a signal should create exactly 1 node, 0 links
    assert_eq!(nodes_after - nodes_before, 1);
    assert_eq!(links_after - links_before, 0);

    rt.cleanup();
    assert_eq!(rt.count(), (1, 0));
}

#[test]
fn test_count_computed() {
    let rt = runtime();
    let (nodes_before, links_before) = rt.count();
    let sig = rt.signal(10);
    let (nodes_after_sig, links_after_sig) = rt.count();

    // Signal creation: 1 node, 0 links
    assert_eq!(nodes_after_sig - nodes_before, 1);
    assert_eq!(links_after_sig - links_before, 0);

    let comp = rt.memo(move || sig.get() * 2);
    let (nodes_after_comp, links_after_comp) = rt.count();

    // Computed creation: 1 node, 0 links (link not created until get() is called)
    assert_eq!(nodes_after_comp - nodes_after_sig, 1);
    assert_eq!(links_after_comp - links_after_sig, 0);

    // First access to computed creates the link
    let _val = comp.get();
    let (nodes_after, links_after) = rt.count();

    // After get(): 1 link (sig -> comp) is created
    assert_eq!(links_after - links_after_comp, 1);

    // Total: signal (1) + computed (1) = 2 new nodes, 1 new link
    assert_eq!(nodes_after - nodes_before, 2);
    assert_eq!(links_after - links_before, 1);

    rt.cleanup();
    assert_eq!(rt.count(), (1, 0));
}

#[test]
fn test_count_effect() {
    let rt = runtime();
    let (nodes_before, links_before) = rt.count();
    let sig = rt.signal(1);
    let (nodes_after_sig, links_after_sig) = rt.count();

    // Signal creation: 1 node, 0 links
    assert_eq!(nodes_after_sig - nodes_before, 1);
    assert_eq!(links_after_sig - links_before, 0);

    let _eff = rt.effect(move || {
        let _ = sig.get();
    });
    let (nodes_after, links_after) = rt.count();

    // Effect creation: 1 node, 1 link (sig -> eff) when it accesses signal
    assert_eq!(nodes_after - nodes_after_sig, 1);
    assert_eq!(links_after - links_after_sig, 1);

    // Total: signal (1) + effect (1) = 2 new nodes, 1 new link
    assert_eq!(nodes_after - nodes_before, 2);
    assert_eq!(links_after - links_before, 1);

    rt.cleanup();
    assert_eq!(rt.count(), (1, 0));
}

#[test]
fn test_count_scope() {
    let rt = runtime();
    let (nodes_before, links_before) = rt.count();

    let scope = rt.scope(|| {
        let _sig = rt.signal(100);
        let _comp = rt.memo(|| 50);
    });
    let (nodes_after, links_after) = rt.count();

    // scope adds 1 scope node + 2 child nodes (signal + computed)
    // No links created since computed doesn't access signal
    let nodes_delta = nodes_after - nodes_before;
    let links_delta = links_after - links_before;

    assert_eq!(nodes_delta, 3);
    assert_eq!(links_delta, 0);

    // After cleanup, nodes should decrease
    scope.dispose();
    let (nodes_after_cleanup, links_after_cleanup) = rt.count();

    assert_eq!(nodes_after - nodes_after_cleanup, 3);
    assert_eq!(links_after - links_after_cleanup, 0);

    rt.cleanup();
    assert_eq!(rt.count(), (1, 0));
}

#[test]
fn test_count_with_links() {
    let rt = runtime();
    let (nodes_before, links_before) = rt.count();

    let sig = rt.signal(5);
    let (nodes_after_sig, links_after_sig) = rt.count();

    // Signal creation: 1 node, 0 links
    assert_eq!(nodes_after_sig - nodes_before, 1);
    assert_eq!(links_after_sig - links_before, 0);

    let comp = rt.memo(move || sig.get() + 1);
    let (nodes_after_comp, links_after_comp) = rt.count();

    // Computed creation: 1 node, 0 links (link not created until get())
    assert_eq!(nodes_after_comp - nodes_after_sig, 1);
    assert_eq!(links_after_comp - links_after_sig, 0);

    let _eff = rt.effect(move || {
        let _ = comp.get();
    });
    let (nodes_after_eff, links_after_eff) = rt.count();

    // Effect creation: 1 node
    assert_eq!(nodes_after_eff - nodes_after_comp, 1);

    // When effect runs, it calls comp.get() which:
    // 1. Sets computed as active_sub
    // 2. Accesses sig.get(), creating sig -> comp link
    // 3. Returns to effect as active_sub
    // 4. Effect calls comp.get(), creating comp -> eff link
    // So 2 links are created: sig -> comp and comp -> eff
    assert_eq!(links_after_eff - links_after_comp, 2);
    assert_eq!(links_after_eff - links_before, 2);

    // Trigger the effect to re-establish links
    sig.set(10);

    let (nodes_after, links_after) = rt.count();

    // After triggering, nodes and links stay the same
    assert_eq!(nodes_after - nodes_before, 3);
    assert_eq!(links_after - links_before, 2);

    rt.cleanup();
    assert_eq!(rt.count(), (1, 0));
}

#[test]
fn test_count_cleanup_reduces_nodes() {
    let rt = runtime();
    let (nodes_before, links_before) = rt.count();

    let scope = rt.scope(|| {
        let _s1 = rt.signal(1);
        let _s2 = rt.signal(2);
        let _c1 = rt.memo(|| 3);
        let _c2 = rt.memo(|| 4);
    });
    let (nodes_with_scope, links_with_scope) = rt.count();

    // Inside scope: 1 scope node + 2 signals + 2 computed = 5 nodes
    // No links since computed don't access signals
    assert_eq!(nodes_with_scope - nodes_before, 5);
    assert_eq!(links_with_scope - links_before, 0);

    scope.dispose();
    let (nodes_after, links_after) = rt.count();

    // After cleanup, should return to previous state
    assert_eq!(nodes_with_scope - nodes_after, 5);
    assert_eq!(links_with_scope - links_after, 0);
    assert_eq!(nodes_after, nodes_before);
    assert_eq!(links_after, links_before);

    rt.cleanup();
    assert_eq!(rt.count(), (1, 0));
}

#[test]
fn test_count_cleanup() {
    let rt = runtime();
    let _s0 = rt.signal(0);

    rt.effect(move || {
        _s0.get();
    });

    _s0.set(1);

    let (nodes_before, links_before) = rt.count();

    let scope = rt.scope(|| {
        let _s1 = rt.signal(1);
        let _s2 = rt.signal(2);
        let _s3 = rt.signal(3);
        let _c1 = rt.memo(move || _s1.get() + _s2.get());
        let _c2 = rt.memo(move || _c1.get() + _s3.get());
    });

    scope.dispose();

    let (nodes_after, links_after) = rt.count();

    assert_eq!(nodes_after, nodes_before);
    assert_eq!(links_after, links_before);
}

#[test]
fn test_count_effect_run() {
    let rt = runtime();
    let (nodes_before, links_before) = rt.count();
    let n = 5;

    for _ in 0..n {
        let trigger = rt.signal(0);

        let e = rt.scope(move || {
            rt.effect(move || {
                trigger.get();
                let _s1 = rt.signal(1);
                let _s2 = rt.signal(2);
                let _c1 = rt.memo(move || _s1.get() + _s2.get());
            });
        });

        for v in [2, 3, 4] {
            trigger.set(v);
        }

        e.dispose();
    }

    let (nodes_after, links_after) = rt.count();

    assert_eq!(nodes_after, nodes_before + n);
    assert_eq!(links_after, links_before);
}

#[test]
fn test_count_nested_effect_with_cleanup_no_leak() {
    let rt = runtime();
    // Verify that creating and destroying inner effects doesn't leak nodes/links

    // Start from clean state
    let (nodes_before, links_before) = rt.count();

    let sig = rt.signal(1);
    let (nodes_after_sig, links_after_sig) = rt.count();

    // Signal: 1 node, 0 links
    assert_eq!(
        nodes_after_sig - nodes_before,
        1,
        "Signal should add 1 node"
    );
    assert_eq!(
        links_after_sig - links_before,
        0,
        "Signal should add 0 links"
    );

    let outer = rt.effect({
        move || {
            let _v = sig.get();

            // Create inner effect
            let inner = rt.effect(move || {
                // inner effect doesn't subscribe to anything
            });

            // Immediately cleanup inner effect
            inner.dispose();
        }
    });

    let (nodes_after_outer, links_after_outer) = rt.count();

    // (outer effect + inner effect): 2 node + 1 link (sig -> outer)
    assert_eq!(nodes_after_outer - nodes_after_sig, 1);
    assert_eq!(
        links_after_outer - links_after_sig,
        1,
        "Outer effect should add 1 link"
    );

    // Trigger outer effect to run again
    sig.set(2);

    let (nodes_after, links_after) = rt.count();

    // After re-run: should still be 1 signal + 1 outer effect
    // inner effect was cleaned up, so no additional nodes
    assert_eq!(
        nodes_after - nodes_before,
        2,
        "Should have sig + outer nodes"
    );
    assert_eq!(
        links_after - links_before,
        1,
        "Should have sig -> outer link"
    );

    outer.dispose();
    let (nodes_final, links_final) = rt.count();

    // After cleanup: should return to initial state + sig (which is not a child of outer)
    assert_eq!(
        nodes_final,
        nodes_before + 1,
        "Node count should be initial state + sig"
    );
    assert_eq!(
        links_final, links_before,
        "Link count should return to initial state"
    );
}

#[test]
fn test_count_effect_creates_and_destroys_inner_no_leak() {
    let rt = runtime();
    // Verify that repeatedly creating/destroying inner effects doesn't accumulate
    let (nodes_before, links_before) = rt.count();

    let sig = rt.signal(1);
    let (nodes_after_sig, _) = rt.count();

    // Signal: 1 node
    assert_eq!(nodes_after_sig - nodes_before, 1);

    let outer = rt.effect(move || {
        let _v = sig.get();

        // Create inner effect
        let inner = rt.effect(move || {
            // inner doesn't subscribe to anything
        });

        // Immediately cleanup
        inner.dispose();
    });

    let (nodes_after_outer, _) = rt.count();

    // outer effect + signal + inner
    assert_eq!(nodes_after_outer - nodes_after_sig, 1);

    // Trigger outer effect multiple times
    sig.set(2);
    sig.set(3);
    sig.set(4);

    let (nodes_after, links_after) = rt.count();

    // Should still only have signal + outer effect (inner effects were cleaned up)
    assert_eq!(nodes_after - nodes_before, 2); // sig + outer
    assert_eq!(links_after - links_before, 1); // sig -> outer

    outer.dispose();
    let (nodes_final, links_final) = rt.count();

    // Final state: initial state + sig (sig is not a child of outer)
    assert_eq!(
        nodes_final,
        nodes_before + 1,
        "Should have initial nodes + sig"
    );
    assert_eq!(
        links_final, links_before,
        "Link count should match initial state"
    );
}

#[test]
fn test_count_nested_scope_cleanup_no_leak() {
    let rt = runtime();
    // Verify that nested scope cleanup doesn't leak
    let (nodes_before, links_before) = rt.count();

    let sig = rt.signal(1);
    let (nodes_after_sig, _) = rt.count();

    // Signal: 1 node
    assert_eq!(nodes_after_sig - nodes_before, 1);

    let scope = rt.scope(move || {
        let _v = sig.get();

        // Create inner scope with signals and computed
        let inner = rt.scope(|| {
            let _s = rt.signal(10);
            let _c = rt.memo(|| 20);
        });

        // Immediately cleanup inner scope
        inner.dispose();
    });

    let (nodes_after_scope, _) = rt.count();

    // outer scope + signal: 2 nodes (inner scope was cleaned up)
    assert_eq!(nodes_after_scope - nodes_after_sig, 1);

    // scope doesn't auto-rerun, so we can't trigger it with sig.set()
    // But we can verify cleanup works
    scope.dispose();
    let (nodes_final, links_final) = rt.count();

    // After cleanup: should return to initial state (only the first signal)
    assert_eq!(nodes_final, nodes_after_sig);
    assert_eq!(links_final, links_before);
}

#[test]
fn test_scope_run_no_leak() {
    let rt = runtime();
    let initial = rt.count();

    let sig = rt.signal(1);
    rt.effect(move || {
        sig.get();

        rt.scope(move || {
            rt.effect(move || {
                sig.get();
            });
        })
        .dispose();
    });
    let prev = rt.count();
    sig.set(2);
    sig.set(3);

    assert_eq!(prev, (initial.0 + 2, initial.1 + 1)); // (sig + outter), (sig -> outter)
    assert_eq!(prev, rt.count());
}

#[test]
fn test_effect_run_no_leak() {
    let rt = runtime();
    let initial = rt.count();

    let s = rt.signal(1);

    let _e0 = rt.effect(move || {
        let c = rt.computed(move |_| {
            let _e1 = rt.effect(move || {});
            s.get()
        });
        s.get();

        let _e2 = rt.effect(move || {
            c.get();
        });

        let _e3 = rt.effect(move || {
            s.get();
        });

        _e3.dispose();
    });

    let prev = rt.count();
    s.set(2);
    s.set(3);
    s.set(4);

    // Nodes: initial(root) + s + c + e0 + e1 + e2 + e3 (e3 cleanup removes node)
    // Links: s->e0, e0->e2 (parent subscribes to child), c->e1 (parent subscribes to child),
    //        c->s, e2->c
    assert_eq!(prev, (initial.0 + 5, initial.1 + 5));
    assert_eq!(prev, rt.count());
}

#[test]
fn test_effect_basic() {
    let rt = runtime();
    let s = rt.signal(1i32);
    let value = Rc::new(RefCell::new(0i32));

    let value_for_closure = value.clone();
    let _effect = rt.effect(move || {
        *value_for_closure.borrow_mut() += s.get();
    });

    assert_eq!(*value.borrow(), 1);

    s.set(2);
    assert_eq!(*value.borrow(), 3);

    s.set(4);
    assert_eq!(*value.borrow(), 7);
}

#[test]
fn test_effect_multiple_signals() {
    let rt = runtime();
    let s1 = rt.signal(1i32);
    let s2 = rt.signal(2i32);
    let sum = Rc::new(RefCell::new(0i32));

    let sum_for_closure = sum.clone();
    let _effect = rt.effect(move || {
        *sum_for_closure.borrow_mut() = s1.get() + s2.get();
    });

    assert_eq!(*sum.borrow(), 3);

    s1.set(10);
    assert_eq!(*sum.borrow(), 12);

    s2.set(20);
    assert_eq!(*sum.borrow(), 30);
}

#[test]
fn test_signal_update_sequence() {
    let rt = runtime();
    let s = rt.signal(1i32);
    let count = Rc::new(RefCell::new(0i32));

    let _e1 = rt.effect(move || {
        s.get();
    });

    let count_for_closure = count.clone();
    let _e2 = rt.effect(move || {
        *count_for_closure.borrow_mut() += 1;
        s.get();
    });

    assert_eq!(*count.borrow(), 1);

    s.set(2);
    assert_eq!(*count.borrow(), 2);

    s.set(3);
    assert_eq!(*count.borrow(), 3);
}

#[test]
fn test_effect_clear_subscriptions_when_untracked() {
    let rt = runtime();
    let b_run_times = Rc::new(RefCell::new(0i32));

    let a = rt.signal(1i32);
    let b_run_times_for_closure = b_run_times.clone();
    let b = rt.memo(move || {
        *b_run_times_for_closure.borrow_mut() += 1;
        a.get() * 2
    });

    let stop_effect = rt.scope(move || {
        let _e = rt.effect(move || {
            b.get();
        });
    });

    assert_eq!(*b_run_times.borrow(), 1);
    a.set(2);
    assert_eq!(*b_run_times.borrow(), 2);
    stop_effect.dispose();
    a.set(3);
    assert_eq!(*b_run_times.borrow(), 2);
}

#[test]
fn test_effect_not_run_untracked_inner_effect() {
    let rt = runtime();
    let a = rt.signal(3i32);
    let b = rt.memo(move || a.get() > 0);

    let error_triggered = Rc::new(RefCell::new(false));

    let error_triggered_for_outer = error_triggered.clone();
    let _outer = rt.effect(move || {
        if b.get() {
            let error_triggered = error_triggered_for_outer.clone();
            let _inner = rt.effect(move || {
                if a.get() == 0 {
                    *error_triggered.borrow_mut() = true;
                }
            });
        }
    });

    a.set(2);
    a.set(1);
    a.set(0);

    assert_eq!(*error_triggered.borrow(), false);
}

#[test]
fn test_effect_run_outer_first() {
    let rt = runtime();
    let a = rt.signal(1i32);
    let b = rt.signal(1i32);

    let triggered = Rc::new(RefCell::new(vec![]));

    let _outer = rt.effect({
        let triggered = triggered.clone();
        move || {
            triggered.borrow_mut().push(1);

            if a.get() > 0 {
                triggered.borrow_mut().push(2);
                let triggered = triggered.clone();
                let _inner = rt.effect(move || {
                    b.get();
                    triggered.borrow_mut().push(3);
                    if a.get() == 0 || a.get() == 2 {
                        triggered.borrow_mut().push(4);
                    }
                });
            }
        }
    });

    assert_eq!(*triggered.borrow(), vec![1, 2, 3]);
    triggered.borrow_mut().clear();

    rt.start_batch();
    b.set(0);
    a.set(0);
    rt.end_batch();

    assert_eq!(*triggered.borrow(), vec![1]);
    triggered.borrow_mut().clear();

    rt.start_batch();
    b.set(0);
    a.set(2);
    rt.end_batch();

    assert_eq!(*triggered.borrow(), vec![1, 2, 3, 4]);
}

#[test]
fn test_effect_not_trigger_inner_when_resolve_maybe_dirty() {
    let rt = runtime();
    let a = rt.signal(0i32);
    let b = rt.memo(move || a.get() % 2);

    let inner_trigger_times = Rc::new(RefCell::new(0i32));

    let inner_trigger_times_for_outer = inner_trigger_times.clone();
    let _outer = rt.effect(move || {
        let inner_trigger_times = inner_trigger_times_for_outer.clone();
        let _inner = rt.effect(move || {
            b.get();
            *inner_trigger_times.borrow_mut() += 1;
        });
    });

    a.set(2);

    assert_eq!(*inner_trigger_times.borrow(), 1);
}

#[test]
fn test_effect_notify_inner_effects_same_order() {
    let rt = runtime();
    let a = rt.signal(0i32);
    let b = rt.signal(0i32);
    let c = rt.memo(move || a.get() - b.get());

    let order1 = Rc::new(RefCell::new(Vec::new()));
    let order2 = Rc::new(RefCell::new(Vec::new()));

    let order1_for_closure = order1.clone();
    let _effect1 = rt.effect(move || {
        order1_for_closure.borrow_mut().push("effect1");
        a.get();
    });

    let order1_for_closure2 = order1.clone();
    let b_for_closure = b;
    let _effect2 = rt.effect(move || {
        order1_for_closure2.borrow_mut().push("effect2");
        a.get();
        b_for_closure.get();
    });

    let order2_for_closure = order2.clone();
    let c_for_closure = c;
    let _outer = rt.effect(move || {
        c_for_closure.get();
        let order2_inner1 = order2_for_closure.clone();
        let _inner1 = rt.effect(move || {
            order2_inner1.borrow_mut().push("effect1");
            a.get();
        });
        let order2_inner2 = order2_for_closure.clone();
        let b_for_closure = b;
        let _inner2 = rt.effect(move || {
            order2_inner2.borrow_mut().push("effect2");
            a.get();
            b_for_closure.get();
        });
    });

    order1.borrow_mut().clear();
    order2.borrow_mut().clear();

    rt.start_batch();
    b.set(1);
    a.set(1);
    rt.end_batch();

    assert_eq!(*order1.borrow(), &["effect2", "effect1"]);
    assert_eq!(*order2.borrow(), *order1.borrow());
}

#[test]
fn test_effect_custom_batch_support() {
    let rt = runtime();
    // Simplified version that tests batch behavior
    let logs = Rc::new(RefCell::new(Vec::new()));
    let a = rt.signal(0i32);
    let b = rt.signal(0i32);

    let logs_for_aa = logs.clone();
    let b_for_closure = b;
    let aa = rt.memo(move || {
        logs_for_aa.borrow_mut().push("aa-0");
        if a.get() == 0 {
            b_for_closure.set(1);
        }
        logs_for_aa.borrow_mut().push("aa-1");
    });

    let logs_for_bb = logs.clone();
    let bb = rt.memo(move || {
        logs_for_bb.borrow_mut().push("bb");
        b.get()
    });

    // Manually test that aa computes before bb
    aa.get();
    bb.get();

    assert_eq!(*logs.borrow(), &["aa-0", "aa-1", "bb"]);
}

#[test]
fn test_effect_duplicate_subscribers_do_not_affect_notify_order() {
    let rt = runtime();
    let src1 = rt.signal(0i32);
    let src2 = rt.signal(0i32);

    let order = Rc::new(RefCell::new(Vec::new()));

    let order_for_closure = order.clone();
    let src2_for_closure = src2;
    let _effect1 = rt.effect(move || {
        order_for_closure.borrow_mut().push("a");
        let is_one = src2_for_closure.get() == 1;
        if is_one {
            src1.get();
        }
        src2_for_closure.get();
        src1.get();
    });

    let order_for_closure = order.clone();
    let src1_for_closure = src1;
    let _effect2 = rt.effect(move || {
        order_for_closure.borrow_mut().push("b");
        src1_for_closure.get();
    });

    src2.set(1);

    order.borrow_mut().clear();
    src1.set(src1.get() + 1);

    assert_eq!(*order.borrow(), &["a", "b"]);
}

#[test]
fn test_effect_handle_side_effect_with_inner_effects() {
    let rt = runtime();
    let a = rt.signal(0i32);
    let b = rt.signal(0i32);

    let order = Rc::new(RefCell::new(Vec::new()));

    let order_for_closure = order.clone();
    let _effect = rt.effect(move || {
        let a_for_closure = a;
        let order_for_inner1 = order_for_closure.clone();
        let _inner1 = rt.effect(move || {
            a_for_closure.get();
            order_for_inner1.borrow_mut().push("a");
        });

        let b_for_closure = b;
        let order_for_inner2 = order_for_closure.clone();
        let _inner2 = rt.effect(move || {
            b_for_closure.get();
            order_for_inner2.borrow_mut().push("b");
        });

        assert_eq!(*order_for_closure.borrow(), &["a", "b"]);

        order_for_closure.borrow_mut().clear();
        b.set(1);
        a.set(1);
        assert_eq!(*order_for_closure.borrow(), &["b", "a"]);
    });
}

#[test]
fn test_effect_handle_flags_indirectly_updated() {
    let rt = runtime();
    let a = rt.signal(false);
    let b = rt.memo(move || a.get());
    let c = rt.memo(move || {
        b.get();
        0
    });
    let d = rt.memo(move || {
        c.get();
        b.get()
    });

    let triggers = Rc::new(RefCell::new(0i32));

    let triggers_for_closure = triggers.clone();
    let d_for_closure = d;
    let _effect = rt.effect(move || {
        d_for_closure.get();
        *triggers_for_closure.borrow_mut() += 1;
    });

    assert_eq!(*triggers.borrow(), 1);
    a.set(true);
    assert_eq!(*triggers.borrow(), 2);
}

#[test]
fn test_scope_not_trigger_after_stop() {
    let rt = runtime();
    let count = rt.signal(1i32);

    let triggers = Rc::new(RefCell::new(0i32));

    let triggers_for_closure = triggers.clone();
    let stop_scope = rt.scope(move || {
        let triggers = triggers_for_closure.clone();
        let _effect1 = rt.effect(move || {
            *triggers.borrow_mut() += 1;
            count.get();
        });

        assert_eq!(*triggers_for_closure.borrow(), 1);

        count.set(2);
        assert_eq!(*triggers_for_closure.borrow(), 2);
    });

    count.set(3);
    assert_eq!(*triggers.borrow(), 3);
    stop_scope.dispose();
    count.set(4);
    assert_eq!(*triggers.borrow(), 3);
}

#[test]
fn test_scope_dispose_inner_effects() {
    let rt = runtime();
    let source = rt.signal(1i32);

    let triggers = Rc::new(RefCell::new(0i32));

    let triggers_for_outer = triggers.clone();
    let _effect = rt.effect(move || {
        let triggers = triggers_for_outer.clone();
        let _dispose = rt.scope(move || {
            let triggers = triggers.clone();
            let _effect = rt.effect(move || {
                source.get();
                *triggers.borrow_mut() += 1;
            });
        });

        assert_eq!(*triggers_for_outer.borrow(), 1);

        source.set(2);
        assert_eq!(*triggers_for_outer.borrow(), 2);

        // Note: cleanup is called automatically when scope goes out of scope
    });
}

#[test]
fn test_scope_track_in_outer_effect() {
    let rt = runtime();
    let source = rt.signal(1i32);

    let triggers = Rc::new(RefCell::new(0i32));

    let triggers_for_closure = triggers.clone();
    let _effect = rt.effect(move || {
        rt.scope(move || {
            source.get();
        });
        *triggers_for_closure.borrow_mut() += 1;
    });

    assert_eq!(*triggers.borrow(), 1);
    source.set(2);
    assert_eq!(*triggers.borrow(), 2);
}

#[test]
fn test_guard_valid_within_scope() {
    let rt = runtime();
    rt.scope(|| {
        let s = rt.signal(42i32);
        let guard = s.read();
        assert_eq!(*guard, 42);
        // Still valid - scope not disposed
    });
}

#[test]
fn test_multiple_guards_same_signal() {
    let rt = runtime();
    rt.scope(|| {
        let s = rt.signal(42i32);
        let g1 = s.read();
        let g2 = s.read(); // Multiple reads OK
        assert_eq!(*g1, *g2);
    });
}

#[test]
fn test_guard_valid_outlives_scope() {
    let rt = runtime();
    let s = Rc::new(RefCell::new(None));

    let s_clone = s.clone();
    let _ = rt.scope(move || {
        let signal = rt.signal(1i32);
        *s_clone.borrow_mut() = Some(signal);
    });

    let signal = s.borrow().unwrap();
    assert_eq!(*signal.read() + 1, 2);
}

#[test]
fn test_effect_creates_signal_without_scope_no_leak() {
    let rt = runtime();
    let s = rt.signal(1);
    let count = std::rc::Rc::new(std::cell::RefCell::new(0));
    let count_clone = count.clone();

    let _e = rt.effect(move || {
        let _inner = rt.signal(1); //      effect      
        *count_clone.borrow_mut() += 1;
        s.get();
    });

    assert_eq!(*count.borrow(), 1);
    s.set(2);
    assert_eq!(*count.borrow(), 2); // effect     
}

#[test]
fn test_nested_effect_cleanup() {
    let rt = runtime();
    let s = rt.signal(1);

    let _outer = rt.effect(move || {
        let _inner = rt.effect(move || {
            s.get();
        });
    });
}

#[test]
fn test_effect_reexecution_cleans_children() {
    let rt = runtime();
    let s = rt.signal(1);
    let run_count = std::rc::Rc::new(std::cell::RefCell::new(0));
    let run_count_clone = run_count.clone();

    let _e = rt.effect(move || {
        *run_count_clone.borrow_mut() += 1;
        let _temp = rt.signal(100);
        s.get();
    });

    assert_eq!(*run_count.borrow(), 1);
    s.set(2);
    assert_eq!(*run_count.borrow(), 2);
}

#[test]
fn test_nested_effect_with_cleanup() {
    let rt = runtime();
    let sig = rt.signal(1);
    let run_count = Rc::new(RefCell::new(0));

    rt.effect({
        let run_count = run_count.clone();
        move || {
            let _v = sig.get();
            *run_count.borrow_mut() += 1;

            // Inner effect
            let inner = rt.effect(move || {
                // inner effect doesn't subscribe to anything
            });

            // Cleanup inner effect
            inner.dispose();
        }
    });

    // Trigger outer effect to run again
    sig.set(2);

    // This test used to panic with "invalid SlotMap key used"
    // because after the inner effect was deleted, the outer effect
    // would try to access already-deleted nodes when running again
    assert_eq!(*run_count.borrow(), 2);
}

#[test]
fn test_effect_creates_and_destroys_inner_effect() {
    let rt = runtime();
    let sig = rt.signal(1);
    let inner_run_count = Rc::new(RefCell::new(0));
    let outer_run_count = Rc::new(RefCell::new(0));

    rt.effect({
        let inner_run_count = inner_run_count.clone();
        let outer_run_count = outer_run_count.clone();
        move || {
            let _v = sig.get();
            *outer_run_count.borrow_mut() += 1;

            // Create inner effect
            let inner = rt.effect({
                let inner_run_count = inner_run_count.clone();
                move || {
                    *inner_run_count.borrow_mut() += 1;
                }
            });

            // Immediately cleanup
            inner.dispose();
        }
    });

    // First run
    sig.set(2);

    // Inner effect should be created 2 times, but cleaned up each time
    assert_eq!(*inner_run_count.borrow(), 2);
    assert_eq!(*outer_run_count.borrow(), 2);
}

#[test]
fn nested_effect_cleanup_test_nested_scope_cleanup() {
    let rt = runtime();
    let sig = rt.signal(1);
    let outer_runs = Rc::new(RefCell::new(0));

    // scope only runs once, doesn't automatically re-execute
    // so outer_runs expected value is 1, not 2
    let _scope = rt.scope({
        let outer_runs = outer_runs.clone();
        move || {
            let _v = sig.get();
            *outer_runs.borrow_mut() += 1;

            // Inner scope
            let inner_scope = rt.scope(|| {
                // Create some nodes
                let _s = rt.signal(10);
                let _c = rt.memo(|| 20);
            });

            // Cleanup inner scope
            inner_scope.dispose();
        }
    });

    // scope won't re-run due to sig.set()
    sig.set(2);

    // Verify it only ran once
    assert_eq!(*outer_runs.borrow(), 1);
}

#[test]
fn test_scoped_basic() {
    let rt = runtime();
    let scoped_fn = rt.scoped(|x: i32| x + 1);
    let (result, scope) = scoped_fn(5);
    assert_eq!(result, 6);
    scope.dispose();
}

#[test]
fn test_scoped_with_reactive() {
    let rt = runtime();
    let _s = rt.signal(0);
    let scoped_fn = rt.scoped(|_| {
        let s = rt.signal(42);
        s.get()
    });
    let (result, scope) = scoped_fn(());
    assert_eq!(result, 42);
    scope.dispose();
}

#[test]
fn test_scoped_cleanup_works() {
    let rt = runtime();
    let (nodes_before, _) = rt.count();

    let scoped_fn = rt.scoped(|_| {
        let _s = rt.signal(1);
        let _c = rt.computed(move |_| 2);
    });
    let (_, scope) = scoped_fn(());

    let (nodes_with_scope, _) = rt.count();
    assert_eq!(nodes_with_scope - nodes_before, 3); // scope + signal + computed

    scope.dispose();

    let (nodes_after, _) = rt.count();
    assert_eq!(nodes_after, nodes_before); // All cleaned up
}

#[test]
fn test_scoped_nested() {
    let rt = runtime();
    let outer_fn = rt.scoped(|_| {
        let _s1 = rt.signal(1);

        // Create another child scope inside
        let inner_fn = rt.scoped(|_| {
            let _s2 = rt.signal(2);
        });

        inner_fn(());
    });

    let (_, outer_scope) = outer_fn(());

    // Cleanup outer scope should clean up inner scope too
    outer_scope.dispose();
}

#[test]
fn test_scoped_deferred_execution() {
    let rt = runtime();
    // Create the scoped function
    let scoped_fn = rt.scoped(|x: i32| x * 2);

    // Execute it multiple times
    let (result1, scope1) = scoped_fn(5);
    assert_eq!(result1, 10);

    let (result2, scope2) = scoped_fn(10);
    assert_eq!(result2, 20);

    // Cleanup both scopes
    scope1.dispose();
    scope2.dispose();
}

#[test]
fn test_scoped_captures_parent_at_creation() {
    let rt = runtime();
    // Create a scope
    let scope = rt.scope(|| {
        // Capture this scope as parent
        let scoped_fn = rt.scoped(|_| {
            // This should be a child of the scope
            let _s = rt.signal(123);
        });

        // Execute the scoped function
        scoped_fn(());
    });

    // Cleanup should remove all children
    scope.dispose();
}

#[test]
fn test_scoped_with_effect() {
    let rt = runtime();
    let scoped_fn = rt.scoped(|_| {
        let counter = rt.signal(0);
        let _effect = rt.effect(move || {
            counter.set(counter.get() + 1);
        });
    });

    let (_, scope) = scoped_fn(());
    scope.dispose();
}

#[test]
fn test_scoped_multiple_calls() {
    let rt = runtime();
    let scoped_fn = rt.scoped(|x: i32| x + 1);

    // Call multiple times before cleanup
    let (r1, s1) = scoped_fn(1);
    let (r2, s2) = scoped_fn(2);
    let (r3, s3) = scoped_fn(3);

    assert_eq!(r1, 2);
    assert_eq!(r2, 3);
    assert_eq!(r3, 4);

    // Cleanup all scopes
    s1.dispose();
    s2.dispose();
    s3.dispose();
}

#[test]
fn test_signal_basic() {
    let rt = runtime();
    let s = rt.signal(42i32);
    assert_eq!(s.get(), 42);

    s.set(100);
    assert_eq!(s.get(), 100);
}

#[test]
fn test_signal_bool() {
    let rt = runtime();
    let s = rt.signal(true);
    assert_eq!(s.get(), true);

    s.set(false);
    assert_eq!(s.get(), false);
}

#[test]
fn test_signal_read() {
    let rt = runtime();
    struct S(Vec<i32>);
    let v = rt.signal(S(vec![1]));
    let c = Rc::new(RefCell::new(0));
    rt.effect({
        let c = c.clone();
        move || {
            *c.borrow_mut() += 1;
            assert_eq!(v.read().0[0], *c.borrow())
        }
    });

    v.set(S(vec![2]));
    v.set(S(vec![3]));
    v.set(S(vec![4]));
}

#[test]
fn test_signal_peek() {
    let rt = runtime();
    struct S(Vec<i32>);
    let v = rt.signal(S(vec![1]));
    let c = Rc::new(RefCell::new(0));
    rt.effect({
        let c = c.clone();
        move || {
            *c.borrow_mut() += 1;
            assert_eq!(v.peek().0[0], *c.borrow())
        }
    });

    v.set(S(vec![2]));
    v.set(S(vec![3]));

    assert_eq!(*c.borrow(), 1);
}

#[test]
fn test_signal_write() {
    let rt = runtime();
    let v = rt.signal(vec![0]);
    let c = Rc::new(RefCell::new(0));
    rt.effect({
        let c = c.clone();
        move || {
            println!("test_signal_write::effect");
            *c.borrow_mut() += 1;
            assert_eq!(v.read().len(), *c.borrow())
        }
    });

    v.write().push(1);
    v.write().push(2);
    v.write().push(3);

    assert_eq!(*c.borrow(), 4);
}

#[test]
fn test_signal_write_dirty() {
    let rt = runtime();
    let v = rt.signal(vec![0]);
    let c = Rc::new(RefCell::new(0));
    rt.effect({
        let c = c.clone();
        move || {
            v.read();
            *c.borrow_mut() += 1;
        }
    });

    v.write().push(1);
    v.write().push(2);

    assert_eq!(*c.borrow(), 3);

    v.set(vec![0, 1, 2]);
    v.set(vec![0, 1, 2]);

    assert_eq!(*c.borrow(), 5);

    v.set(vec![0]);

    assert_eq!(*c.borrow(), 6);
}

#[test]
fn test_signal_does_not_notify_if_unchanged() {
    let rt = runtime();
    let s = rt.signal(1i32);
    let triggers = Rc::new(RefCell::new(0i32));

    let triggers_for_closure = triggers.clone();
    let _effect = rt.effect(move || {
        *triggers_for_closure.borrow_mut() += 1;
        s.get();
    });

    assert_eq!(*triggers.borrow(), 1);

    s.set(1);
    assert_eq!(*triggers.borrow(), 2);

    s.set(2);
    assert_eq!(*triggers.borrow(), 3);
}

#[test]
fn test_multiple_modifications_same_signal() {
    let rt = runtime();
    let signal = rt.signal(0);

    rt.effect(move || {
        signal.update(|v| *v += 1);
    });
}

#[test]
fn test_topology_drop_a_b_a_updates() {
    let rt = runtime();
    //     A
    //   / |
    //  B  | <- Looks like a flag doesn't it? :D
    //   \ |
    //     C
    //     |
    //     D
    let a = rt.signal(2i32);

    let b = rt.memo(move || a.get() - 1);
    let c = rt.memo(move || a.get() + b.get());

    let compute_count = std::rc::Rc::new(std::cell::RefCell::new(0));
    let compute_count_for_closure = compute_count.clone();
    let d = rt.memo(move || {
        *compute_count_for_closure.borrow_mut() += 1;
        format!("d: {}", c.get())
    });

    // Trigger read
    assert_eq!(d.get(), "d: 3");
    assert_eq!(*compute_count.borrow(), 1);

    a.set(4);
    d.get();
    assert_eq!(*compute_count.borrow(), 2);
}

#[test]
fn test_topology_diamond_graph() {
    let rt = runtime();
    // In this scenario "D" should only update once when "A" receives
    // an update. This is sometimes referred to as the "diamond" scenario.
    //     A
    //   /   \
    //  B     C
    //   \   /
    //     D

    let a = rt.signal("a");
    let b = rt.memo(move || a.get().to_string());
    let c = rt.memo(move || a.get().to_string());

    let d_count = std::rc::Rc::new(std::cell::RefCell::new(0));
    let d_count_for_closure = d_count.clone();
    let d = rt.memo(move || {
        *d_count_for_closure.borrow_mut() += 1;
        format!("{} {}", b.get(), c.get())
    });

    // First access triggers computation
    assert_eq!(d.get(), "a a");
    assert_eq!(*d_count.borrow(), 1);

    a.set("aa");
    // Second access after update
    assert_eq!(d.get(), "aa aa");
    assert_eq!(*d_count.borrow(), 2);
}

#[test]
fn test_topology_diamond_with_tail() {
    let rt = runtime();
    // "E" will be likely updated twice if our mark+sweep logic is buggy.
    //     A
    //   /   \
    //  B     C
    //   \   /
    //     D
    //     |
    //     E

    let a = rt.signal("a");
    let b = rt.memo(move || a.get().to_string());
    let c = rt.memo(move || a.get().to_string());

    let d = rt.memo(move || format!("{} {}", b.get(), c.get()));

    let e_count = std::rc::Rc::new(std::cell::RefCell::new(0));
    let e_count_for_closure = e_count.clone();
    let e = rt.memo(move || {
        *e_count_for_closure.borrow_mut() += 1;
        d.get()
    });

    // First access triggers computation
    assert_eq!(e.get(), "a a");
    assert_eq!(*e_count.borrow(), 1);

    a.set("aa");
    // Second access after update
    assert_eq!(e.get(), "aa aa");
    assert_eq!(*e_count.borrow(), 2);
}

#[test]
fn test_topology_bail_out_if_same() {
    let rt = runtime();
    // Bail out if value of "B" never changes
    // A->B->C
    let a = rt.signal("a");
    let b = rt.memo(move || {
        a.get();
        "foo"
    });

    let c_count = std::rc::Rc::new(std::cell::RefCell::new(0));
    let c_count_for_closure = c_count.clone();
    let c = rt.memo(move || {
        *c_count_for_closure.borrow_mut() += 1;
        b.get()
    });

    // First access triggers computation
    assert_eq!(c.get(), "foo");
    assert_eq!(*c_count.borrow(), 1);

    a.set("aa");
    // Second access - B returns same value, so C should not recompute
    assert_eq!(c.get(), "foo");
    assert_eq!(*c_count.borrow(), 1);
}

#[test]
fn test_topology_jagged_diamond_with_tails() {
    let rt = runtime();
    // "F" and "G" will be likely updated twice if our mark+sweep logic is buggy.
    //     A
    //   /   \
    //  B     C
    //  |     |
    //  |     D
    //   \   /
    //     E
    //   /   \
    //  F     G
    let a = rt.signal("a");

    let b = rt.memo(move || a.get().to_string());
    let c = rt.memo(move || a.get().to_string());

    let d = rt.memo(move || c.get().to_string());

    let e_count = std::rc::Rc::new(std::cell::RefCell::new(0));
    let e_count_for_closure = e_count.clone();
    let e = rt.memo(move || {
        *e_count_for_closure.borrow_mut() += 1;
        format!("{} {}", b.get(), d.get())
    });

    // First access triggers computation
    assert_eq!(e.get(), "a a");
    assert_eq!(*e_count.borrow(), 1);

    a.set("b");
    // Second access after update
    assert_eq!(e.get(), "b b");
    assert_eq!(*e_count.borrow(), 2);
}

#[test]
fn test_topology_ensure_subs_update_even_if_one_dep_unmarks() {
    let rt = runtime();
    // In this scenario "C" always returns the same value. When "A"
    // changes, "B" will update, then "C" at which point its update
    // to "D" will be unmarked. But "D" must still update because
    // "B" marked it. If "D" isn't updated, then we have a bug.
    //     A
    //   /   \
    //  B     *C <- returns same value every time
    //   \   /
    //     D
    let a = rt.signal("a");
    let b = rt.memo(move || a.get());
    let c = rt.memo(move || {
        a.get();
        "c"
    });

    let d_value = std::rc::Rc::new(std::cell::RefCell::new(String::new()));
    let d = rt.memo(move || format!("{} {}", b.get(), c.get()));

    *d_value.borrow_mut() = d.get();
    assert_eq!(*d_value.borrow(), "a c");

    a.set("aa");
    *d_value.borrow_mut() = d.get();
    assert_eq!(*d_value.borrow(), "aa c");
}

#[test]
fn test_topology_ensure_subs_update_even_if_two_deps_unmark() {
    let rt = runtime();
    // In this scenario both "C" and "D" always return the same
    // value. But "E" must still update because "A" marked it.
    // If "E" isn't updated, then we have a bug.
    //     A
    //   / | \
    //  B *C *D
    //   \ | /
    //     E
    let a = rt.signal("a");
    let b = rt.memo(move || a.get());
    let c = rt.memo(move || {
        a.get();
        "c"
    });
    let d = rt.memo(move || {
        a.get();
        "d"
    });

    let e_value = std::rc::Rc::new(std::cell::RefCell::new(String::new()));
    let e = rt.memo(move || format!("{} {} {}", b.get(), c.get(), d.get()));

    *e_value.borrow_mut() = e.get();
    assert_eq!(*e_value.borrow(), "a c d");

    a.set("aa");
    *e_value.borrow_mut() = e.get();
    assert_eq!(*e_value.borrow(), "aa c d");
}

#[test]
fn test_topology_support_lazy_branches() {
    let rt = runtime();
    let a = rt.signal(0i32);
    let b = rt.memo(move || a.get());
    let c = rt.memo(move || if a.get() > 0 { a.get() } else { b.get() });

    assert_eq!(c.get(), 0);
    a.set(1);
    assert_eq!(c.get(), 1);

    a.set(0);
    assert_eq!(c.get(), 0);
}

#[test]
fn test_topology_not_update_sub_if_all_deps_unmark() {
    let rt = runtime();
    // In this scenario "B" and "C" always return the same value. When "A"
    // changes, "D" should not update.
    //     A
    //   /   \
    // *B     *C
    //   \   /
    //     D
    let a = rt.signal("a");
    let b = rt.memo(move || {
        a.get();
        "b"
    });
    let c = rt.memo(move || {
        a.get();
        "c"
    });

    let d_count = std::rc::Rc::new(std::cell::RefCell::new(0));
    let d_count_for_closure = d_count.clone();
    let d = rt.memo(move || {
        *d_count_for_closure.borrow_mut() += 1;
        format!("{} {}", b.get(), c.get())
    });

    assert_eq!(*d_count.borrow(), 0);

    d.get();
    assert_eq!(*d_count.borrow(), 1);

    a.set("aa");
    assert_eq!(*d_count.borrow(), 1);
}

#[test]
fn test_trigger_with_no_dependencies() {
    let rt = runtime();
    // Should not throw
    rt.trigger(|| {});
}

#[test]
fn test_trigger_with_signal() {
    let rt = runtime();
    let src1 = rt.signal(1i32);
    let src2 = rt.signal(1i32);

    let triggers = Rc::new(RefCell::new(0i32));

    let triggers_for_closure = triggers.clone();
    let _effect = rt.effect(move || {
        *triggers_for_closure.borrow_mut() += 1;
        src1.get();
        src2.get();
    });

    assert_eq!(*triggers.borrow(), 1);

    rt.trigger(move || {
        src1.get();
        src2.get();
    });

    assert_eq!(*triggers.borrow(), 2);
}

#[test]
fn test_trigger_with_multiple_sources() {
    let rt = runtime();
    let src1 = rt.signal(1i32);
    let src2 = rt.signal(1i32);

    let triggers = Rc::new(RefCell::new(0i32));

    let triggers_for_closure = triggers.clone();
    let _effect = rt.effect(move || {
        *triggers_for_closure.borrow_mut() += 1;
        src1.get();
        src2.get();
    });

    assert_eq!(*triggers.borrow(), 1);

    rt.trigger(move || {
        src1.get();
        src2.get();
    });

    assert_eq!(*triggers.borrow(), 2);
}


// ----- scenarios -----

#[test]
fn test_scenario_diamond() {
    let rt = runtime();
    let a = rt.signal(String::from("a"));
    let b = rt.memo(move || a.get());
    let c = rt.memo(move || a.get());
    let runs = Rc::new(RefCell::new(0));
    let d = rt.memo({
        let runs = runs.clone();
        move || {
            *runs.borrow_mut() += 1;
            format!("{} {}", b.get(), c.get())
        }
    });

    assert_eq!(d.get(), "a a");
    assert_eq!(*runs.borrow(), 1);

    a.set(String::from("aa"));
    assert_eq!(d.get(), "aa aa");
    assert_eq!(*runs.borrow(), 2);
}

#[test]
fn test_scenario_batched_writes() {
    let rt = runtime();
    let s = rt.signal(1);
    let observed = Rc::new(RefCell::new(Vec::new()));
    rt.effect({
        let observed = observed.clone();
        move || observed.borrow_mut().push(s.get())
    });

    rt.start_batch();
    s.set(2);
    s.set(3);
    assert_eq!(*observed.borrow(), vec![1]);
    rt.end_batch();

    assert_eq!(*observed.borrow(), vec![1, 3]);
    assert_eq!(rt.with(|sys| (sys.notify_index, sys.queued_length)), (0, 0));
}

#[test]
fn test_scenario_memo_bailout() {
    let rt = runtime();
    let a = rt.signal(0);
    let b = rt.memo(move || {
        a.get();
        "foo"
    });
    let c_count = Rc::new(RefCell::new(0));
    let c = rt.memo({
        let c_count = c_count.clone();
        move || {
            *c_count.borrow_mut() += 1;
            b.get()
        }
    });

    assert_eq!(c.get(), "foo");
    a.set(1);
    assert_eq!(c.get(), "foo");
    assert_eq!(*c_count.borrow(), 1);
}

#[test]
fn test_scenario_cleanup_last_in_first_out() {
    let rt = runtime();
    let vec = Rc::new(RefCell::new(Vec::new()));
    rt.scope({
        let vec = vec.clone();
        move || {
            rt.on_cleanup({
                let vec = vec.clone();
                move || vec.borrow_mut().push(0)
            });
            rt.on_cleanup({
                let vec = vec.clone();
                move || vec.borrow_mut().push(1)
            });
            rt.scope({
                let vec = vec.clone();
                move || {
                    rt.on_cleanup({
                        let vec = vec.clone();
                        move || vec.borrow_mut().push(11)
                    });
                    rt.on_cleanup({
                        let vec = vec.clone();
                        move || vec.borrow_mut().push(12)
                    });
                }
            });
        }
    })
    .dispose();

    assert_eq!(*vec.borrow(), vec![12, 11, 1, 0]);
}

#[test]
fn test_scenario_no_leak_under_rerun() {
    let rt = runtime();
    let s = rt.signal(1);
    let n0 = rt.count();
    let e = rt.effect(move || {
        s.get();
        let inner = rt.effect(|| {});
        inner.dispose();
    });
    s.set(2);
    s.set(3);
    e.dispose();
    assert_eq!(rt.count(), n0);
}

#[test]
fn test_scenario_context_shadowing() {
    let rt = runtime();
    rt.scope(|| {
        rt.provide_context(Config(10));
        rt.scope(|| {
            rt.provide_context(Config(20));
            rt.scope(|| {
                assert_eq!(rt.use_context::<Config>(), Some(Config(20)));
            });
        });
        assert_eq!(rt.use_context::<Config>(), Some(Config(10)));
    });
}

// ----- what holds of every run -----

#[test]
fn test_equal_writes_recompute_a_memo_once() {
    let rt = runtime();
    let s = rt.signal(1);
    let memo_runs = Rc::new(RefCell::new(0));
    let m = rt.memo({
        let memo_runs = memo_runs.clone();
        move || {
            *memo_runs.borrow_mut() += 1;
            s.get() * 2
        }
    });
    let effect_runs = Rc::new(RefCell::new(0));
    rt.effect({
        let effect_runs = effect_runs.clone();
        move || {
            *effect_runs.borrow_mut() += 1;
            m.get();
        }
    });
    assert_eq!((*memo_runs.borrow(), *effect_runs.borrow()), (1, 1));

    s.set(5);
    assert_eq!((*memo_runs.borrow(), *effect_runs.borrow()), (2, 2));
    s.set(5);
    // the memo is recomputed, finds its value unchanged, and the effect stays
    assert_eq!((*memo_runs.borrow(), *effect_runs.borrow()), (3, 2));

    rt.start_batch();
    s.set(7);
    s.set(7);
    rt.end_batch();
    assert_eq!((*memo_runs.borrow(), *effect_runs.borrow()), (4, 3));
}

#[test]
fn test_queue_is_drained_after_each_operation() {
    let rt = runtime();
    let drained = move || rt.with(|sys| (sys.notify_index, sys.queued_length)) == (0, 0);
    let s = rt.signal(1);
    let m = rt.memo(move || s.get() + 1);
    assert!(drained());
    let e = rt.effect(move || {
        m.get();
    });
    assert!(drained());
    s.set(2);
    assert!(drained());
    *s.write() += 1;
    assert!(drained());
    rt.trigger(move || {
        s.get();
    });
    assert!(drained());
    rt.start_batch();
    s.set(9);
    assert!(!drained());
    rt.end_batch();
    assert!(drained());
    e.dispose();
    assert!(drained());
    rt.cleanup();
    assert!(drained());
}

#[test]
fn test_dispose_twice_is_a_no_op() {
    let rt = runtime();
    let keep = rt.signal(0);
    let scope = rt.scope(move || {
        let s = rt.signal(1);
        rt.effect(move || {
            s.get();
            keep.get();
        });
    });
    scope.dispose();
    let after_first = rt.count();
    assert_eq!(after_first, (2, 0));
    scope.dispose();
    assert_eq!(rt.count(), after_first);
    assert_eq!(keep.get(), 0);
}

#[test]
fn test_cleanup_twice_is_a_no_op() {
    let rt = runtime();
    let called = Rc::new(RefCell::new(0));
    let s = rt.signal(1);
    rt.effect(move || {
        s.get();
    });
    rt.on_cleanup({
        let called = called.clone();
        move || *called.borrow_mut() += 1
    });
    rt.cleanup();
    assert_eq!(rt.count(), (1, 0));
    assert_eq!(*called.borrow(), 1);
    rt.cleanup();
    assert_eq!(rt.count(), (1, 0));
    assert_eq!(*called.borrow(), 1);
}

#[test]
fn test_empty_batch_runs_no_effect() {
    let rt = runtime();
    let s = rt.signal(1);
    let runs = Rc::new(RefCell::new(0));
    rt.effect({
        let runs = runs.clone();
        move || {
            *runs.borrow_mut() += 1;
            s.get();
        }
    });
    let before = rt.count();
    rt.start_batch();
    rt.end_batch();
    rt.start_batch();
    rt.start_batch();
    rt.end_batch();
    rt.end_batch();
    assert_eq!(*runs.borrow(), 1);
    assert_eq!(rt.count(), before);
}

#[test]
fn test_effect_disposed_by_a_cleanup_does_not_run() {
    let rt = runtime();
    let s = rt.signal(1);
    let later_runs = Rc::new(RefCell::new(0));
    let victim: Rc<RefCell<Option<Scope>>> = Rc::new(RefCell::new(None));

    // this effect runs first, and its cleanup disposes of the scope that
    // holds the effect queued after it
    rt.effect({
        let victim = victim.clone();
        move || {
            s.get();
            rt.on_cleanup({
                let victim = victim.clone();
                move || {
                    if let Some(scope) = victim.borrow_mut().take() {
                        scope.dispose();
                    }
                }
            });
        }
    });
    let scope = rt.scope({
        let later_runs = later_runs.clone();
        move || {
            rt.effect({
                let later_runs = later_runs.clone();
                move || {
                    *later_runs.borrow_mut() += 1;
                    s.get();
                }
            });
        }
    });
    *victim.borrow_mut() = Some(scope);
    assert_eq!(*later_runs.borrow(), 1);

    s.set(2);
    assert_eq!(*later_runs.borrow(), 1);
    assert_eq!(rt.with(|sys| (sys.notify_index, sys.queued_length)), (0, 0));
    assert_eq!(rt.count(), (3, 1));
}

#[test]
fn test_effect_that_writes_what_it_reads_runs_once_per_write() {
    let rt = runtime();
    let s = rt.signal(0);
    let runs = Rc::new(RefCell::new(0));
    rt.effect({
        let runs = runs.clone();
        move || {
            *runs.borrow_mut() += 1;
            let seen = s.get();
            if seen < 100 {
                s.set(seen + 1);
            }
        }
    });
    assert_eq!(*runs.borrow(), 1);
    assert_eq!(s.get(), 1);
    s.set(10);
    assert_eq!(*runs.borrow(), 2);
    assert_eq!(s.get(), 11);
}

#[test]
fn test_computed_getter_is_handed_the_last_value() {
    let rt = runtime();
    let s = rt.signal(1);
    let sum = rt.computed(move |prev: Option<i32>| prev.unwrap_or(0) + s.get());
    assert_eq!(sum.get(), 1);
    s.set(10);
    assert_eq!(sum.get(), 11);
    s.set(100);
    assert_eq!(sum.get(), 111);
}

#[test]
fn test_read_after_a_write_inside_an_effect_queues_nothing() {
    let rt = runtime();
    let s = rt.signal(0);
    let runs = Rc::new(RefCell::new(0));
    rt.effect({
        let runs = runs.clone();
        move || {
            *runs.borrow_mut() += 1;
            s.set(s.get() + 1);
        }
    });
    assert_eq!(*runs.borrow(), 1);
    assert_eq!(s.get(), 1);
    assert_eq!(rt.with(|sys| (sys.notify_index, sys.queued_length)), (0, 0));
    assert_eq!(*runs.borrow(), 1);
    assert_eq!(s.get(), 1);
}
