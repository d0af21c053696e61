use std::rc::Rc;
use vstd::prelude::*;

use crate::shared::rc_clone;
use crate::symbol::{purust_symbol_unbox, symbol_of, JsSymbol};

verus! {

/// The dynamic values that this library reads and builds. `V` is the
/// runtime's own value type, carried through untouched.
pub enum Value<V> {
    /// A string value.
    Str(String),
    /// A boxed JavaScript symbol.
    Symbol(Rc<JsSymbol>),
    /// A class-wrapped `SymbolOrStr`, as handed out by `eventNames`.
    Carrier(Rc<SymbolOrStr<V>>),
    /// Any other runtime value.
    Other(Rc<V>),
}

/// The `eventNames` foreign type: the payload keeps the raw event key (a
/// string or a symbol box) so that `symbolOrStr` can route it.
pub struct SymbolOrStr<V>(pub Value<V>);

impl<V> Value<V> {
    /// Another handle on the same value.
    pub fn duplicate(&self) -> (res: Self)
        ensures
            res == *self,
    {
        match self {
            Value::Str(s) => Value::Str(s.clone()),
            Value::Symbol(s) => Value::Symbol(rc_clone(s)),
            Value::Carrier(c) => Value::Carrier(rc_clone(c)),
            Value::Other(o) => Value::Other(rc_clone(o)),
        }
    }
}

/// The payload of a class-wrapped `SymbolOrStr`, if `value` is one.
pub open spec fn carried<V>(value: Value<V>) -> Option<Value<V>> {
    match value {
        Value::Carrier(c) => Some(c.0),
        _ => None,
    }
}

/// What `symbolOrStr` routes: the payload of a `SymbolOrStr`, or the value
/// itself when it is none.
pub open spec fn unwrapped<V>(value: Value<V>) -> Value<V> {
    match carried(value) {
        Some(name) => name,
        None => value,
    }
}

/// Wraps an event name as a class-wrapped `SymbolOrStr`.
pub fn symbol_or_str_value<V>(name: Value<V>) -> (value: Value<V>)
    ensures
        carried(value) == Some(name),
{
    Value::Carrier(Rc::new(SymbolOrStr(name)))
}

/// The payload of a class-wrapped `SymbolOrStr`, or the value itself.
pub fn unbox_symbol_or_str<V>(value: &Value<V>) -> (name: Value<V>)
    ensures
        name == unwrapped(*value),
{
    match value {
        Value::Carrier(c) => c.0.duplicate(),
        _ => value.duplicate(),
    }
}

/// Where `symbolOrStr` sends an event name.
pub enum Branch<V> {
    /// To the symbol handler.
    Symbol(Value<V>),
    /// To the string handler.
    Str(Value<V>),
}

/// `symbolOrStr`: unwraps an event name and routes it to the symbol handler
/// when it is a symbol, to the string handler otherwise.
pub fn symbol_or_str<V>(value: &Value<V>) -> (branch: Branch<V>)
    ensures
        branch == (if symbol_of(unwrapped(*value)) is Some {
            Branch::Symbol(unwrapped(*value))
        } else {
            Branch::Str(unwrapped(*value))
        }),
{
    let name = unbox_symbol_or_str(value);
    if purust_symbol_unbox(&name).is_some() {
        Branch::Symbol(name)
    } else {
        Branch::Str(name)
    }
}

/// Unwrapping a name wrapped by `symbol_or_str_value` gives it back.
pub proof fn lemma_symbol_or_str_round_trip<V>(name: Value<V>, value: Value<V>)
    requires
        carried(value) == Some(name),
    ensures
        unwrapped(value) == name,
{
}

} // verus!
