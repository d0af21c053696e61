use std::rc::Rc;

use purs_node::callback::{callback_arguments, callback_identity, CallbackKind};
use purs_node::event_emitter::{
    key_from_value, key_matches_value, listener_event_args, listener_registration,
    same_callback, EventEmitter, EventKey, Firing, ListenerMode, Node_EventEmitter_unsafeOn,
    Node_EventEmitter_unsafeOnce, Node_EventEmitter_unsafePrependListener,
    Node_EventEmitter_unsafePrependOnceListener,
};
use purs_node::symbol::{purust_symbol_box, purust_symbol_unbox, SymbolRegistry};
use purs_node::value::{unbox_symbol_or_str, Value};

fn key(name: &str) -> EventKey {
    EventKey::Str(name.to_string())
}

fn cb(label: &str) -> Rc<String> {
    Rc::new(label.to_string())
}

/// Delivers firings as the runtime does, announcing each fired `once`
/// listener's removal before calling it, and records the labels of the
/// callbacks called, in order.
fn run(e: &mut EventEmitter<String, u8>, firings: Vec<Firing<String>>) -> Vec<String> {
    let mut called = Vec::new();
    for firing in firings {
        match firing {
            Firing::Call(callback) => called.push((*callback).clone()),
            Firing::Once(fired) => {
                let (notice, callback) = e.announce_removal(fired);
                called.extend(run(e, notice.firings));
                called.push((*callback).clone());
            }
        }
    }
    called
}

fn emit_key(e: &mut EventEmitter<String, u8>, k: &EventKey) -> (bool, Vec<String>) {
    let (had, firings) = e.emit(k);
    (had, run(e, firings))
}

fn emit(e: &mut EventEmitter<String, u8>, event: &str) -> (bool, Vec<String>) {
    emit_key(e, &key(event))
}

const ON: ListenerMode = ListenerMode { once: false, prepend: false };
const ONCE: ListenerMode = ListenerMode { once: true, prepend: false };
const PREPEND: ListenerMode = ListenerMode { once: false, prepend: true };
const PREPEND_ONCE: ListenerMode = ListenerMode { once: true, prepend: true };

fn add(e: &mut EventEmitter<String, u8>, k: EventKey, label: &str, id: usize, mode: ListenerMode) -> Option<String> {
    let (pending, _notice) = e.begin_add(k, cb(label), Some(id), mode);
    e.finish_add(pending)
}

fn on(e: &mut EventEmitter<String, u8>, event: &str, label: &str, id: usize, mode: ListenerMode) {
    add(e, key(event), label, id, mode);
}

fn name_of(value: &Value<String>) -> String {
    match unbox_symbol_or_str(value) {
        Value::Str(s) => s,
        _ => panic!("not a string name"),
    }
}

#[test]
fn emitter_new_defaults() {
    let e: EventEmitter<String, u8> = EventEmitter::new_native();
    assert_eq!(e.max_listeners(), 10);
    assert!(e.user_data().is_none());
    assert_eq!(e.listener_count("data"), 0);
}

#[test]
fn emitter_emit_calls_in_registration_order() {
    let mut e = EventEmitter::new();
    on(&mut e, "data", "first", 1, ON);
    on(&mut e, "end", "other", 2, ON);
    on(&mut e, "data", "second", 3, ON);
    let (had, callbacks) = emit(&mut e, "data");
    assert!(had);
    assert_eq!(callbacks, vec!["first", "second"]);
    assert_eq!(e.listener_count("data"), 2);
}

#[test]
fn emitter_emit_without_listeners_reports_false() {
    let mut e: EventEmitter<String, u8> = EventEmitter::new();
    on(&mut e, "end", "other", 1, ON);
    let (had, callbacks) = emit(&mut e, "data");
    assert!(!had);
    assert!(callbacks.is_empty());
    assert_eq!(e.listener_count("end"), 1);
}

#[test]
fn emitter_once_listener_fires_once() {
    let mut e = EventEmitter::new();
    on(&mut e, "data", "persistent", 1, ON);
    on(&mut e, "data", "once", 2, ONCE);
    let (_, first) = emit(&mut e, "data");
    assert_eq!(first, vec!["persistent", "once"]);
    let (_, second) = emit(&mut e, "data");
    assert_eq!(second, vec!["persistent"]);
    assert_eq!(e.listener_count("data"), 1);
}

#[test]
fn emitter_prepend_goes_before_same_event() {
    let mut e = EventEmitter::new();
    on(&mut e, "end", "end1", 1, ON);
    on(&mut e, "data", "data1", 2, ON);
    on(&mut e, "data", "data2", 3, ON);
    on(&mut e, "data", "early", 4, PREPEND);
    assert_eq!(e.matching(&key("data")), vec![1, 2, 3]);
    let (_, callbacks) = emit(&mut e, "data");
    assert_eq!(callbacks, vec!["early", "data1", "data2"]);
    let (_, ends) = emit(&mut e, "end");
    assert_eq!(ends, vec!["end1"]);
}

#[test]
fn emitter_prepend_without_listeners_appends() {
    let mut e = EventEmitter::new();
    on(&mut e, "end", "end1", 1, ON);
    on(&mut e, "data", "early", 2, PREPEND_ONCE);
    assert_eq!(e.matching(&key("data")), vec![1]);
    let (_, callbacks) = emit(&mut e, "data");
    assert_eq!(callbacks, vec!["early"]);
    assert_eq!(e.listener_count("data"), 0);
}

#[test]
fn emitter_register_hands_back_hook_event() {
    let mut e: EventEmitter<String, u8> = EventEmitter::new();
    let hook = add(&mut e, key("exit"), "x", 1, ON);
    assert_eq!(hook, Some("exit".to_string()));
    let mut registry = SymbolRegistry::new();
    let sym = registry.for_key("s".to_string());
    let hook = add(&mut e, EventKey::Sym(sym), "y", 2, ON);
    assert_eq!(hook, None);
}

#[test]
fn emitter_remove_most_recent_matching_identity() {
    let mut e = EventEmitter::new();
    on(&mut e, "data", "a", 7, ON);
    on(&mut e, "data", "b", 8, ON);
    on(&mut e, "data", "c", 7, ON);
    let (removed, _) = e.remove(&key("data"), Some(7));
    assert!(removed);
    let (_, callbacks) = emit(&mut e, "data");
    assert_eq!(callbacks, vec!["a", "b"]);
}

#[test]
fn emitter_off_removes_last_added_instance() {
    let mut e = EventEmitter::new();
    on(&mut e, "ping", "pong", 1, ON);
    on(&mut e, "ping", "pong", 1, ONCE);
    let (removed, _) = e.remove(&key("ping"), Some(1));
    assert!(removed);
    let (_, first) = emit(&mut e, "ping");
    let (_, second) = emit(&mut e, "ping");
    assert_eq!(first, vec!["pong"]);
    assert_eq!(second, vec!["pong"]);
}

#[test]
fn emitter_remove_missing_changes_nothing() {
    let mut e = EventEmitter::new();
    on(&mut e, "data", "a", 7, ON);
    on(&mut e, "removeListener", "watcher", 2, ON);
    for (event, id) in [("data", Some(9)), ("end", Some(7)), ("data", None)] {
        let (removed, notice) = e.remove(&key(event), id);
        assert!(!removed);
        assert!(!notice.had_listeners);
        assert!(notice.firings.is_empty() && notice.args.is_empty());
    }
    assert_eq!(e.listener_count("data"), 1);
}

#[test]
fn emitter_off_undoes_on() {
    let mut e = EventEmitter::new();
    on(&mut e, "data", "a", 1, ON);
    on(&mut e, "data", "b", 2, ON);
    let (removed, _) = e.remove(&key("data"), Some(2));
    assert!(removed);
    let (_, callbacks) = emit(&mut e, "data");
    assert_eq!(callbacks, vec!["a"]);
}

#[test]
fn emitter_new_listener_notification() {
    let mut e = EventEmitter::new();
    on(&mut e, "newListener", "watcher", 1, ON);
    let callback = cb("added");
    let (pending, notice) = e.begin_add(key("data"), callback.clone(), Some(2), ON);
    assert!(notice.had_listeners);
    assert_eq!(notice.args.len(), 2);
    assert_eq!(name_of(&notice.args[0]), "data");
    match &notice.args[1] {
        Value::Other(c) => assert!(Rc::ptr_eq(c, &callback)),
        _ => panic!("the callback is not the second argument"),
    }
    assert_eq!(run(&mut e, notice.firings), vec!["watcher"]);
    // Notified before registration: the new listener is not there yet.
    assert_eq!(e.listener_count("data"), 0);
    e.finish_add(pending);
    assert_eq!(e.listener_count("data"), 1);
    // Node notifies `newListener` of its own new listeners too, but not the
    // one being added.
    let (pending, notice) = e.begin_add(key("newListener"), cb("second watcher"), Some(3), ON);
    assert!(notice.had_listeners);
    assert_eq!(run(&mut e, notice.firings), vec!["watcher"]);
    e.finish_add(pending);
    assert_eq!(e.listener_count("newListener"), 2);
}

#[test]
fn emitter_new_listener_without_watchers() {
    let mut e: EventEmitter<String, u8> = EventEmitter::new();
    let (pending, notice) = e.begin_add(key("newListener"), cb("first"), Some(1), ON);
    assert!(!notice.had_listeners);
    assert!(notice.firings.is_empty());
    e.finish_add(pending);
    assert_eq!(e.listener_count("newListener"), 1);
}

#[test]
fn emitter_removed_listener_notification() {
    let mut e = EventEmitter::new();
    on(&mut e, "removeListener", "watcher", 1, ON);
    on(&mut e, "removeListener", "self", 2, ON);
    on(&mut e, "data", "d", 3, ON);
    // Removing a `removeListener` listener notifies the ones that remain.
    let (removed, notice) = e.remove(&key("removeListener"), Some(2));
    assert!(removed);
    assert!(notice.had_listeners);
    assert_eq!(name_of(&notice.args[0]), "removeListener");
    assert_eq!(run(&mut e, notice.firings), vec!["watcher"]);
    let (removed, notice) = e.remove(&key("data"), Some(3));
    assert!(removed);
    assert!(notice.had_listeners);
    assert_eq!(name_of(&notice.args[0]), "data");
    match &notice.args[1] {
        Value::Other(c) => assert_eq!(**c, "d"),
        _ => panic!("the callback is not the second argument"),
    }
    assert_eq!(run(&mut e, notice.firings), vec!["watcher"]);
    let (removed, notice) = e.remove(&key("removeListener"), Some(1));
    assert!(removed);
    assert!(!notice.had_listeners);
    assert!(notice.firings.is_empty());
}

#[test]
fn emitter_fired_once_listener_announces_removal() {
    let mut e = EventEmitter::new();
    on(&mut e, "x", "f", 1, ONCE);
    on(&mut e, "removeListener", "r", 2, ON);
    let (had, firings) = e.emit(&key("x"));
    assert!(had);
    assert_eq!(firings.len(), 1);
    let fired = match firings.into_iter().next().unwrap() {
        Firing::Once(fired) => fired,
        Firing::Call(_) => panic!("a once listener was handed out as persistent"),
    };
    let (notice, callback) = e.announce_removal(fired);
    assert_eq!(*callback, "f");
    assert!(notice.had_listeners);
    assert_eq!(name_of(&notice.args[0]), "x");
    match &notice.args[1] {
        Value::Other(c) => assert_eq!(**c, "f"),
        _ => panic!("the callback is not the second argument"),
    }
    assert_eq!(run(&mut e, notice.firings), vec!["r"]);
    assert_eq!(e.listener_count("x"), 0);
}

#[test]
fn emitter_once_removal_listener_announces_itself() {
    let mut e = EventEmitter::new();
    on(&mut e, "removeListener", "r-once", 1, ONCE);
    on(&mut e, "removeListener", "r", 2, ON);
    on(&mut e, "x", "f", 3, ONCE);
    // f's removal reaches r-once, whose own removal reaches r, then r itself.
    let (_, called) = emit(&mut e, "x");
    assert_eq!(called, vec!["r", "r-once", "r", "f"]);
    assert_eq!(e.listener_count("removeListener"), 1);
}

#[test]
fn emitter_event_names_distinct_in_order() {
    let mut e = EventEmitter::new();
    let mut registry = SymbolRegistry::new();
    let sym = registry.for_key("sym".to_string());
    on(&mut e, "b", "1", 1, ON);
    on(&mut e, "a", "2", 2, ON);
    on(&mut e, "b", "3", 3, ON);
    add(&mut e, EventKey::Sym(sym.clone()), "4", 4, ON);
    add(&mut e, EventKey::Sym(sym), "5", 5, ON);
    let names = e.event_names();
    assert_eq!(names.len(), 3);
    assert_eq!(name_of(&names[0]), "b");
    assert_eq!(name_of(&names[1]), "a");
    assert!(purust_symbol_unbox(&unbox_symbol_or_str(&names[2])).is_some());
}

#[test]
fn emitter_max_listeners_and_user_data() {
    let mut e: EventEmitter<String, u8> = EventEmitter::new();
    e.set_max_listeners(25);
    assert_eq!(e.max_listeners(), 25);
    e.set_user_data(cb("state"));
    assert_eq!(*e.user_data().unwrap(), "state");
    e.set_user_data(cb("next"));
    assert_eq!(*e.user_data().unwrap(), "next");
    assert!(e.listen_hook().is_none());
    e.set_listen_hook(4);
    assert_eq!(e.listen_hook(), Some(&4));
    assert_eq!(e.max_listeners(), 25);
}

#[test]
fn emitter_symbol_keys_match_by_id() {
    let mut registry = SymbolRegistry::new();
    let s = registry.for_key("s".to_string());
    let t = registry.for_key("t".to_string());
    let a = EventKey::Sym(s.clone());
    let b = EventKey::Sym(registry.for_key("s".to_string()));
    assert!(a.matches(&b));
    assert!(!a.matches(&EventKey::Sym(t)));
    assert!(!a.matches(&key("s")));
    assert!(key("x").matches(&key("x")));
    let mut e = EventEmitter::new();
    add(&mut e, a, "sym", 1, ON);
    let (_, callbacks) = emit_key(&mut e, &b);
    assert_eq!(callbacks, vec!["sym"]);
}

#[test]
fn emitter_key_from_value_and_matching() {
    let mut registry = SymbolRegistry::new();
    let s = registry.for_key("s".to_string());
    let boxed: Value<String> = purust_symbol_box(s.clone());
    let k = key_from_value(&boxed);
    assert!(k.matches(&EventKey::Sym(s)));
    let named: Value<String> = Value::Str("data".to_string());
    assert!(key_from_value(&named).matches(&key("data")));
    assert!(key_matches_value(&key("data"), &named));
    assert!(!key_matches_value(&key("end"), &named));
    assert!(!key_matches_value(&k, &named));
    assert!(key_matches_value(&k, &boxed));
}

#[test]
fn emitter_listener_event_args() {
    let callback = cb("listener");
    let args = listener_event_args(&key("data"), &callback);
    assert_eq!(args.len(), 2);
    assert_eq!(name_of(&args[0]), "data");
    match &args[1] {
        Value::Other(c) => assert!(Rc::ptr_eq(c, &callback)),
        _ => panic!("the callback is not the second argument"),
    }
}

#[test]
fn emitter_registration_modes() {
    let on = Node_EventEmitter_unsafeOn();
    assert!(!on.once && !on.prepend);
    let once = Node_EventEmitter_unsafeOnce();
    assert!(once.once && !once.prepend);
    let prepend = Node_EventEmitter_unsafePrependListener();
    assert!(!prepend.once && prepend.prepend);
    let prepend_once = Node_EventEmitter_unsafePrependOnceListener();
    assert!(prepend_once.once && prepend_once.prepend);
    let mode = listener_registration(true, false);
    assert!(mode.once && !mode.prepend);
}

#[test]
fn emitter_same_callback_needs_known_identities() {
    assert!(same_callback(Some(3), Some(3)));
    assert!(!same_callback(Some(3), Some(4)));
    assert!(!same_callback(None, Some(3)));
    assert!(!same_callback(None, None));
}

#[test]
fn emitter_callback_identity_and_arguments() {
    assert_eq!(callback_identity(CallbackKind::Func2, 99), Some(99));
    assert_eq!(callback_identity(CallbackKind::NotAFunction, 99), None);
    assert_eq!(callback_arguments(CallbackKind::Func3, 1), vec![Some(0), None, None]);
    assert_eq!(callback_arguments(CallbackKind::Func1, 3), vec![Some(0)]);
    assert_eq!(callback_arguments(CallbackKind::NotAFunction, 0), vec![None]);
    assert_eq!(
        callback_arguments(CallbackKind::Func5, 5),
        vec![Some(0), Some(1), Some(2), Some(3), Some(4)]
    );
}

#[test]
fn emitter_emit_leaves_other_events() {
    let mut e = EventEmitter::new();
    on(&mut e, "data", "once data", 1, ONCE);
    on(&mut e, "end", "once end", 2, ONCE);
    on(&mut e, "end", "end", 3, ON);
    let (_, data) = emit(&mut e, "data");
    assert_eq!(data, vec!["once data"]);
    assert_eq!(e.listener_count("end"), 2);
    let (_, ends) = emit(&mut e, "end");
    assert_eq!(ends, vec!["once end", "end"]);
    let (had, again) = emit(&mut e, "data");
    assert!(!had);
    assert!(again.is_empty());
}

#[test]
fn emitter_registration_counts() {
    let mut e = EventEmitter::new();
    on(&mut e, "data", "a", 1, ON);
    on(&mut e, "data", "b", 2, PREPEND);
    on(&mut e, "end", "c", 3, PREPEND_ONCE);
    assert_eq!(e.listener_count("data"), 2);
    assert_eq!(e.listener_count("end"), 1);
    assert_eq!(e.listener_count("close"), 0);
}
