use std::rc::Rc;

use purs_node::symbol::{
    purust_symbol_box, purust_symbol_description, purust_symbol_id, purust_symbol_unbox,
    show_symbol, SymbolRegistry,
};
use purs_node::value::{
    symbol_or_str, symbol_or_str_value, unbox_symbol_or_str, Branch, SymbolOrStr, Value,
};

fn text(value: &Value<u8>) -> Option<String> {
    match value {
        Value::Str(s) => Some(s.clone()),
        _ => None,
    }
}

#[test]
fn symbol_for_interns_per_key() {
    let mut registry = SymbolRegistry::new();
    let a = registry.for_key("a".to_string());
    let again = registry.for_key("a".to_string());
    assert_eq!(purust_symbol_id(&a), purust_symbol_id(&again));
    assert!(Rc::ptr_eq(&a, &again));
}

#[test]
fn symbol_for_gives_fresh_ids_from_one() {
    let mut registry = SymbolRegistry::new();
    let a = registry.for_key("a".to_string());
    let b = registry.for_key("b".to_string());
    assert_eq!(purust_symbol_id(&a), 1);
    assert_eq!(purust_symbol_id(&b), 2);
    assert_ne!(purust_symbol_id(&a), purust_symbol_id(&b));
    assert_eq!(purust_symbol_description(&b), "b");
}

#[test]
fn symbol_key_for_finds_registered_key() {
    let mut registry = SymbolRegistry::new();
    let _a = registry.for_key("alpha".to_string());
    let b = registry.for_key("beta".to_string());
    let boxed: Value<u8> = purust_symbol_box(b);
    assert_eq!(registry.key_for(&boxed), Some("beta".to_string()));
    // Other `Symbol.for` calls in between change nothing.
    let _c = registry.for_key("gamma".to_string());
    let _again = registry.for_key("alpha".to_string());
    assert_eq!(registry.key_for(&boxed), Some("beta".to_string()));
    assert!(registry.contains_key(&"gamma".to_string()));
    assert!(!registry.contains_key(&"delta".to_string()));
}

#[test]
fn symbol_key_for_unregistered_or_not_a_symbol() {
    let mut registry = SymbolRegistry::new();
    let _a = registry.for_key("alpha".to_string());
    let mut elsewhere = SymbolRegistry::new();
    let _first = elsewhere.for_key("first".to_string());
    let loose = elsewhere.for_key("loose".to_string());
    assert_eq!(purust_symbol_id(&loose), 2);
    assert_eq!(registry.next_id(), 2);
    let boxed: Value<u8> = purust_symbol_box(loose);
    assert_eq!(registry.key_for(&boxed), None);
    let string: Value<u8> = Value::Str("alpha".to_string());
    assert_eq!(registry.key_for(&string), None);
}

#[test]
fn symbol_box_unbox_round_trip() {
    let mut registry = SymbolRegistry::new();
    let s = registry.for_key("k".to_string());
    let boxed: Value<u8> = purust_symbol_box(s.clone());
    let back = purust_symbol_unbox(&boxed).unwrap();
    assert_eq!(purust_symbol_id(&back), purust_symbol_id(&s));
    let other: Value<u8> = Value::Other(Rc::new(7));
    assert!(purust_symbol_unbox(&other).is_none());
    let string: Value<u8> = Value::Str("k".to_string());
    assert!(purust_symbol_unbox(&string).is_none());
}

#[test]
fn symbol_show() {
    let mut registry = SymbolRegistry::new();
    let s = registry.for_key("my key".to_string());
    let boxed: Value<u8> = purust_symbol_box(s);
    assert_eq!(show_symbol(&boxed), "Symbol(my key)");
}

#[test]
fn symbol_or_str_routes_symbols_left_and_strings_right() {
    let mut registry = SymbolRegistry::new();
    let s = registry.for_key("sym".to_string());
    let wrapped_symbol: Value<u8> = symbol_or_str_value(purust_symbol_box(s));
    match symbol_or_str(&wrapped_symbol) {
        Branch::Symbol(name) => assert!(purust_symbol_unbox(&name).is_some()),
        Branch::Str(_) => panic!("a symbol went to the string handler"),
    }
    let wrapped_string: Value<u8> = symbol_or_str_value(Value::Str("data".to_string()));
    match symbol_or_str(&wrapped_string) {
        Branch::Str(name) => assert_eq!(text(&name), Some("data".to_string())),
        Branch::Symbol(_) => panic!("a string went to the symbol handler"),
    }
    let plain: Value<u8> = Value::Str("plain".to_string());
    match symbol_or_str(&plain) {
        Branch::Str(name) => assert_eq!(text(&name), Some("plain".to_string())),
        Branch::Symbol(_) => panic!("a string went to the symbol handler"),
    }
}

#[test]
fn symbol_or_str_unbox() {
    let carrier: Value<u8> = Value::Carrier(Rc::new(SymbolOrStr(Value::Str("x".to_string()))));
    assert_eq!(text(&unbox_symbol_or_str(&carrier)), Some("x".to_string()));
    let plain: Value<u8> = Value::Str("y".to_string());
    assert_eq!(text(&unbox_symbol_or_str(&plain)), Some("y".to_string()));
    let other: Value<u8> = Value::Other(Rc::new(3));
    match unbox_symbol_or_str(&other) {
        Value::Other(v) => assert_eq!(*v, 3),
        _ => panic!("an other value changed kind"),
    }
}
