use std::rc::Rc;
use vstd::prelude::*;

use crate::shared::rc_clone;
use crate::symbol::{purust_symbol_box, purust_symbol_id, purust_symbol_unbox, symbol_of, JsSymbol};
use crate::value::{carried, symbol_or_str_value, Value};

verus! {

/// The name of an event: a string or a symbol.
pub enum EventKey {
    Str(String),
    Sym(Rc<JsSymbol>),
}

/// What identifies an event: its string, or the id of its symbol.
pub enum KeyView {
    Name(Seq<char>),
    Symbol(usize),
}

impl View for EventKey {
    type V = KeyView;

    open spec fn view(&self) -> KeyView {
        match self {
            EventKey::Str(name) => KeyView::Name(name@),
            EventKey::Sym(symbol) => KeyView::Symbol(symbol@.0),
        }
    }
}

/// The runtime value that names an event.
pub open spec fn key_value<V>(key: EventKey) -> Value<V> {
    match key {
        EventKey::Str(name) => Value::Str(name),
        EventKey::Sym(symbol) => Value::Symbol(symbol),
    }
}

impl EventKey {
    /// Whether two keys name the same event: equal strings, or symbols with
    /// the same id.
    pub fn matches(&self, other: &EventKey) -> (same: bool)
        ensures
            same == (self@ == other@),
    {
        match (self, other) {
            (EventKey::Str(left), EventKey::Str(right)) => *left == *right,
            (EventKey::Sym(left), EventKey::Sym(right)) => {
                purust_symbol_id(left) == purust_symbol_id(right)
            },
            _ => false,
        }
    }

    /// The runtime value that names this event.
    pub fn value<V>(&self) -> (value: Value<V>)
        ensures
            value == key_value::<V>(*self),
    {
        match self {
            EventKey::Str(name) => Value::Str(name.clone()),
            EventKey::Sym(symbol) => purust_symbol_box(rc_clone(symbol)),
        }
    }
}

/// The key that a runtime value names: a symbol, or else a string.
pub open spec fn key_of_value<V>(value: Value<V>) -> EventKey {
    match value {
        Value::Symbol(symbol) => EventKey::Sym(symbol),
        Value::Str(name) => EventKey::Str(name),
        _ => arbitrary(),
    }
}

/// The event named by a runtime value, which must be a symbol or a string.
pub fn key_from_value<V>(value: &Value<V>) -> (key: EventKey)
    requires
        value is Symbol || value is Str,
    ensures
        key == key_of_value(*value),
{
    match purust_symbol_unbox(value) {
        Some(symbol) => EventKey::Sym(symbol),
        None => match value {
            Value::Str(name) => EventKey::Str(name.clone()),
            _ => vstd::pervasive::unreached(),
        },
    }
}

/// Whether `value` names the event `key`.
pub open spec fn key_names<V>(key: EventKey, value: Value<V>) -> bool {
    match (key, symbol_of(value)) {
        (EventKey::Sym(left), Some(right)) => left@.0 == right@.0,
        (EventKey::Str(left), None) => match value {
            Value::Str(right) => right@ == left@,
            _ => false,
        },
        _ => false,
    }
}

/// Whether `value` names the event `key`.
pub fn key_matches_value<V>(key: &EventKey, value: &Value<V>) -> (same: bool)
    ensures
        same == key_names(*key, *value),
{
    match (key, purust_symbol_unbox(value)) {
        (EventKey::Sym(left), Some(right)) => purust_symbol_id(left) == purust_symbol_id(&right),
        (EventKey::Str(left), None) => match value {
            Value::Str(right) => *right == *left,
            _ => false,
        },
        _ => false,
    }
}

/// A value names exactly the event of the key it comes from.
pub proof fn lemma_key_names_value<V>(key: EventKey, other: EventKey)
    ensures
        key_names(key, key_value::<V>(other)) == (key@ == other@),
{
}

/// A registered listener.
pub struct Listener<V> {
    /// The function to call.
    pub callback: Rc<V>,
    /// Whether the listener is removed once it has been called.
    pub once: bool,
    /// The identity of the callback, by which `off` finds it again.
    pub identity: Option<usize>,
}

/// The listeners of an emitter, each with its event, in registration order.
pub type Entries<V> = Seq<(EventKey, Listener<V>)>;

/// The listeners that emitting `key` calls, in order.
pub open spec fn fired<V>(ls: Entries<V>, key: KeyView) -> Entries<V>
    decreases ls.len(),
{
    if ls.len() == 0 {
        Seq::empty()
    } else {
        let rest = fired(ls.drop_last(), key);
        if ls.last().0@ == key {
            rest.push(ls.last())
        } else {
            rest
        }
    }
}

/// The listeners left after emitting `key`: all but its `once` listeners.
pub open spec fn kept<V>(ls: Entries<V>, key: KeyView) -> Entries<V>
    decreases ls.len(),
{
    if ls.len() == 0 {
        Seq::empty()
    } else {
        let rest = kept(ls.drop_last(), key);
        if ls.last().0@ == key && ls.last().1.once {
            rest
        } else {
            rest.push(ls.last())
        }
    }
}

/// The positions of the listeners of `key`, in order.
pub open spec fn matching_indices<V>(ls: Entries<V>, key: KeyView) -> Seq<usize>
    decreases ls.len(),
{
    if ls.len() == 0 {
        Seq::empty()
    } else {
        let rest = matching_indices(ls.drop_last(), key);
        if ls.last().0@ == key {
            rest.push((ls.len() - 1) as usize)
        } else {
            rest
        }
    }
}

/// The position of the first listener of `key`, or the length when there is
/// none.
pub open spec fn first_match<V>(ls: Entries<V>, key: KeyView) -> int
    decreases ls.len(),
{
    if ls.len() == 0 {
        0
    } else if ls[0].0@ == key {
        0
    } else {
        1 + first_match(ls.drop_first(), key)
    }
}

/// Whether two callback identities are known and equal.
pub open spec fn same_identity(left: Option<usize>, right: Option<usize>) -> bool {
    left is Some && right is Some && left->0 == right->0
}

/// The position of the most recently added listener of `key` whose callback
/// is `identity`, or -1 when there is none.
pub open spec fn last_removable<V>(ls: Entries<V>, key: KeyView, identity: Option<usize>) -> int
    decreases ls.len(),
{
    if ls.len() == 0 {
        -1
    } else if ls.last().0@ == key && same_identity(ls.last().1.identity, identity) {
        ls.len() - 1
    } else {
        last_removable(ls.drop_last(), key, identity)
    }
}

/// The listeners after registering `(key, listener)`: appended, or, with
/// `prepend`, placed before the first listener of the same event.
pub open spec fn registered<V>(
    ls: Entries<V>,
    key: EventKey,
    listener: Listener<V>,
    prepend: bool,
) -> Entries<V> {
    if prepend {
        ls.insert(first_match(ls, key@), (key, listener))
    } else {
        ls.push((key, listener))
    }
}

/// The event keys of the listeners, each event once, in order of first
/// registration.
pub open spec fn distinct_keys<V>(ls: Entries<V>) -> Seq<EventKey>
    decreases ls.len(),
{
    if ls.len() == 0 {
        Seq::empty()
    } else {
        let rest = distinct_keys(ls.drop_last());
        if exists|j: int| 0 <= j < rest.len() && (#[trigger] rest[j])@ == ls.last().0@ {
            rest
        } else {
            rest.push(ls.last().0)
        }
    }
}

/// The event that announces a new listener.
pub const NEW_LISTENER: &'static str = "newListener";

/// The event that announces a removed listener.
pub const REMOVE_LISTENER: &'static str = "removeListener";

/// A fired `once` listener. Like Node's `once` wrapper, it is announced
/// through `removeListener` before its callback runs: `announce_removal`
/// gives the notice and the callback.
pub struct FiredOnce<V> {
    key: EventKey,
    callback: Rc<V>,
}

impl<V> View for FiredOnce<V> {
    type V = (EventKey, Rc<V>);

    closed spec fn view(&self) -> (EventKey, Rc<V>) {
        (self.key, self.callback)
    }
}

/// One listener that an emit reaches, in the order of the emit.
pub enum Firing<V> {
    /// A persistent listener: call the callback.
    Call(Rc<V>),
    /// A `once` listener, already removed: announce its removal, then call
    /// its callback.
    Once(FiredOnce<V>),
}

/// `firing` is how an emit hands out the listener `entry`.
pub open spec fn fires<V>(firing: Firing<V>, entry: (EventKey, Listener<V>)) -> bool {
    match firing {
        Firing::Call(callback) => !entry.1.once && callback == entry.1.callback,
        Firing::Once(fired) => entry.1.once && fired@ == (entry.0, entry.1.callback),
    }
}

/// `firings` hands out the listeners `entries`, one for one and in order.
pub open spec fn fires_all<V>(firings: Seq<Firing<V>>, entries: Entries<V>) -> bool {
    &&& firings.len() == entries.len()
    &&& forall|i: int| 0 <= i < firings.len() ==> fires(#[trigger] firings[i], entries[i])
}

/// A notification to deliver: the listeners to call, in order, and the
/// arguments to call them with.
pub struct Notice<V> {
    pub had_listeners: bool,
    pub firings: Vec<Firing<V>>,
    pub args: Vec<Value<V>>,
}

/// `notice` is what emitting `event` over `ls` gives, with the name of
/// `subject` and `callback` as arguments, and `after` the listeners left.
pub open spec fn noticed<V>(
    ls: Entries<V>,
    event: KeyView,
    subject: EventKey,
    callback: Rc<V>,
    notice: Notice<V>,
    after: Entries<V>,
) -> bool {
    &&& fires_all(notice.firings@, fired(ls, event))
    &&& notice.had_listeners == (fired(ls, event).len() > 0)
    &&& notice.args@.len() == 2
    &&& carried(notice.args@[0]) == Some(key_value::<V>(subject))
    &&& notice.args@[1] == Value::<V>::Other(callback)
    &&& after == kept(ls, event)
}

/// A notice with nothing to deliver.
pub open spec fn empty_notice<V>(notice: Notice<V>) -> bool {
    &&& !notice.had_listeners
    &&& notice.firings@.len() == 0
    &&& notice.args@.len() == 0
}

/// A listener waiting to be registered once the `newListener` notice has
/// been delivered.
pub struct PendingListener<V> {
    key: EventKey,
    listener: Listener<V>,
    prepend: bool,
}

impl<V> View for PendingListener<V> {
    type V = (EventKey, Listener<V>, bool);

    closed spec fn view(&self) -> (EventKey, Listener<V>, bool) {
        (self.key, self.listener, self.prepend)
    }
}

/// The state of an emitter.
pub struct EmitterView<V, H> {
    pub listeners: Entries<V>,
    pub max_listeners: i64,
    pub user_data: Option<Rc<V>>,
    pub listen_hook: Option<H>,
}

/// A Node-compatible event emitter: listeners kept in registration order.
/// `V` is the runtime's value type, `H` the type of the listen hook.
pub struct EventEmitter<V, H> {
    listeners: Vec<(EventKey, Listener<V>)>,
    max_listeners: i64,
    user_data: Option<Rc<V>>,
    listen_hook: Option<H>,
}

impl<V, H> View for EventEmitter<V, H> {
    type V = EmitterView<V, H>;

    closed spec fn view(&self) -> EmitterView<V, H> {
        EmitterView {
            listeners: self.listeners@,
            max_listeners: self.max_listeners,
            user_data: self.user_data,
            listen_hook: self.listen_hook,
        }
    }
}

impl<V, H> EventEmitter<V, H> {
    /// An emitter with no listeners, no user data, no listen hook and a
    /// listener limit of 10.
    pub fn new() -> (emitter: EventEmitter<V, H>)
        ensures
            emitter@.listeners == Seq::<(EventKey, Listener<V>)>::empty(),
            emitter@.max_listeners == 10,
            emitter@.user_data is None,
            emitter@.listen_hook is None,
    {
        EventEmitter { listeners: Vec::new(), max_listeners: 10, user_data: None, listen_hook: None }
    }

    /// An emitter for native integrations: no listeners, no user data, no
    /// listen hook and a listener limit of 10.
    pub fn new_native() -> (emitter: EventEmitter<V, H>)
        ensures
            emitter@.listeners == Seq::<(EventKey, Listener<V>)>::empty(),
            emitter@.max_listeners == 10,
            emitter@.user_data is None,
            emitter@.listen_hook is None,
    {
        EventEmitter::new()
    }

    /// Emits `key`: selects its listeners in order, removes the `once` ones,
    /// and hands back whether there were any and the listeners to call, in
    /// order; the caller announces the removal of each `once` listener when
    /// its turn comes, then calls it.
    pub fn emit(&mut self, key: &EventKey) -> (result: (bool, Vec<Firing<V>>))
        ensures
            fires_all(result.1@, fired(old(self)@.listeners, key@)),
            fires_all(
                result.1@,
                old(self)@.listeners.filter(|e: (EventKey, Listener<V>)| e.0@ == key@),
            ),
            final(self)@.listeners == old(self)@.listeners.filter(
                |e: (EventKey, Listener<V>)| !(e.0@ == key@ && e.1.once),
            ),
            result.0 == (result.1@.len() > 0),
            final(self)@ == (EmitterView {
                listeners: kept(old(self)@.listeners, key@),
                ..old(self)@
            }),
    {
        let ghost orig = self.listeners@;
        let mut selected: Vec<Firing<V>> = Vec::new();
        let mut index: usize = 0;
        let ghost mut k: int = 0;
        while index < self.listeners.len()
            invariant
                0 <= k <= orig.len(),
                self.listeners@ == kept(orig.take(k), key@) + orig.skip(k),
                index == kept(orig.take(k), key@).len(),
                fires_all(selected@, fired(orig.take(k), key@)),
                self.max_listeners == old(self).max_listeners,
                self.user_data == old(self).user_data,
                self.listen_hook == old(self).listen_hook,
                orig == old(self).listeners@,
            decreases orig.len() - k,
        {
            assert(orig.take(k + 1).drop_last() =~= orig.take(k));
            assert(orig.take(k + 1).last() == orig[k]);
            assert(self.listeners@[index as int] == orig[k]);
            if self.listeners[index].0.matches(key) {
                if self.listeners[index].1.once {
                    let entry = self.listeners.remove(index);
                    selected.push(Firing::Once(FiredOnce { key: entry.0, callback: entry.1.callback }));
                    proof {
                        assert(self.listeners@ =~= kept(orig.take(k + 1), key@) + orig.skip(k + 1));
                        k = k + 1;
                    }
                    continue;
                }
                let callback = rc_clone(&self.listeners[index].1.callback);
                selected.push(Firing::Call(callback));
            }
            index = index + 1;
            proof {
                assert(self.listeners@ =~= kept(orig.take(k + 1), key@) + orig.skip(k + 1));
                k = k + 1;
            }
        }
        proof {
            assert(orig.take(k) =~= orig);
            let kv = key@;
            lemma_emit_keeps_registration_order(orig, kv);
            let calls = |e: (EventKey, Listener<V>)| e.0@ == kv;
            let stays = |e: (EventKey, Listener<V>)| !(e.0@ == kv && e.1.once);
            assert(calls =~= (|e: (EventKey, Listener<V>)| e.0@ == key@));
            assert(stays =~= (|e: (EventKey, Listener<V>)| !(e.0@ == key@ && e.1.once)));
        }
        let had_listeners = selected.len() > 0;
        (had_listeners, selected)
    }

    /// The positions of the listeners of `key`.
    pub fn matching(&self, key: &EventKey) -> (indices: Vec<usize>)
        ensures
            indices@ == matching_indices(self@.listeners, key@),
    {
        let ghost ls = self.listeners@;
        let mut indices: Vec<usize> = Vec::new();
        let mut i: usize = 0;
        while i < self.listeners.len()
            invariant
                0 <= i <= ls.len(),
                ls == self@.listeners,
                indices@ == matching_indices(ls.take(i as int), key@),
            decreases ls.len() - i,
        {
            assert(ls.take(i + 1).drop_last() =~= ls.take(i as int));
            if self.listeners[i].0.matches(key) {
                indices.push(i);
            }
            i = i + 1;
        }
        assert(ls.take(i as int) =~= ls);
        indices
    }

    /// The number of listeners of the event named `event`.
    pub fn listener_count(&self, event: &str) -> (count: usize)
        ensures
            count == matching_indices(self@.listeners, KeyView::Name(event@)).len(),
    {
        self.matching(&EventKey::Str(event.to_owned())).len()
    }

    /// The position of the first listener of `key`, or the length.
    fn position_of_first(&self, key: &EventKey) -> (position: usize)
        ensures
            position == first_match(self@.listeners, key@),
    {
        let ghost ls = self.listeners@;
        let mut i: usize = 0;
        while i < self.listeners.len()
            invariant
                0 <= i <= ls.len(),
                ls == self@.listeners,
                forall|j: int| 0 <= j < i ==> (#[trigger] ls[j]).0@ != key@,
            decreases ls.len() - i,
        {
            if self.listeners[i].0.matches(key) {
                proof {
                    lemma_first_match_at(ls, key@, i as int);
                }
                return i;
            }
            i = i + 1;
        }
        proof {
            lemma_first_match_at(ls, key@, ls.len() as int);
        }
        i
    }

    /// Registers `listener` for `key`, and hands back the name for the listen
    /// hook.
    fn register(&mut self, key: EventKey, listener: Listener<V>, prepend: bool) -> (hook_event:
        Option<String>)
        ensures
            final(self)@ == (EmitterView {
                listeners: registered(old(self)@.listeners, key, listener, prepend),
                ..old(self)@
            }),
            hook_event.deep_view() == match key {
                EventKey::Str(name) => Some(name@),
                EventKey::Sym(_) => None,
            },
    {
        let hook_event = match &key {
            EventKey::Str(name) => Some(name.clone()),
            EventKey::Sym(_) => None,
        };
        if prepend {
            let position = self.position_of_first(&key);
            proof {
                lemma_first_match_props(self@.listeners, key@);
            }
            self.listeners.insert(position, (key, listener));
        } else {
            self.listeners.push((key, listener));
        }
        hook_event
    }

    /// The position of the most recently added listener of `key` whose
    /// callback is `identity`, if there is one.
    fn position_of_removable(&self, key: &EventKey, identity: Option<usize>) -> (position: Option<usize>)
        ensures
            match position {
                Some(p) => p == last_removable(self@.listeners, key@, identity),
                None => last_removable(self@.listeners, key@, identity) == -1,
            },
    {
        let ghost ls = self.listeners@;
        let mut i: usize = self.listeners.len();
        while i > 0
            invariant
                0 <= i <= ls.len(),
                ls == self@.listeners,
                forall|j: int|
                    i <= j < ls.len() ==> !((#[trigger] ls[j]).0@ == key@ && same_identity(
                        ls[j].1.identity,
                        identity,
                    )),
            decreases i,
        {
            let j = i - 1;
            if self.listeners[j].0.matches(key) && same_callback(
                self.listeners[j].1.identity,
                identity,
            ) {
                proof {
                    lemma_last_removable_at(ls, key@, identity, j as int);
                }
                return Some(j);
            }
            i = j;
        }
        proof {
            lemma_last_removable_at(ls, key@, identity, -1);
        }
        None
    }

    /// Removes the most recently added listener of `key` whose callback is
    /// `identity`, and hands it back; `None`, with nothing changed, when
    /// there is none.
    fn take_listener(&mut self, key: &EventKey, identity: Option<usize>) -> (removed: Option<
        (EventKey, Listener<V>),
    >)
        ensures
            ({
                let ls = old(self)@.listeners;
                let p = last_removable(ls, key@, identity);
                if p >= 0 {
                    &&& removed == Some(ls[p])
                    &&& final(self)@ == (EmitterView { listeners: ls.remove(p), ..old(self)@ })
                } else {
                    &&& removed is None
                    &&& final(self)@ == old(self)@
                }
            }),
    {
        proof {
            lemma_last_removable_props(self@.listeners, key@, identity);
        }
        match self.position_of_removable(key, identity) {
            Some(position) => Some(self.listeners.remove(position)),
            None => None,
        }
    }

    /// Emits a `newListener` or `removeListener` notice about `(name,
    /// callback)`, and hands back what to deliver.
    fn notify(&mut self, event: &str, name: &EventKey, callback: &Rc<V>) -> (notice: Notice<V>)
        ensures
            noticed(
                old(self)@.listeners,
                KeyView::Name(event@),
                *name,
                *callback,
                notice,
                final(self)@.listeners,
            ),
            final(self)@.max_listeners == old(self)@.max_listeners,
            final(self)@.user_data == old(self)@.user_data,
            final(self)@.listen_hook == old(self)@.listen_hook,
    {
        let (had_listeners, firings) = self.emit(&EventKey::Str(event.to_owned()));
        Notice { had_listeners, firings, args: listener_event_args(name, callback) }
    }

    /// First step of registering a listener. Node emits `newListener` before
    /// the listener is registered, whatever its event: emits it and hands
    /// back the notice to deliver, with the listener waiting for
    /// `finish_add`. The listener being added is not among those notified.
    pub fn begin_add(
        &mut self,
        key: EventKey,
        callback: Rc<V>,
        identity: Option<usize>,
        mode: ListenerMode,
    ) -> (result: (PendingListener<V>, Notice<V>))
        ensures
            result.0@ == (key, Listener { callback, once: mode.once, identity }, mode.prepend),
            noticed(
                old(self)@.listeners,
                KeyView::Name(NEW_LISTENER@),
                key,
                callback,
                result.1,
                final(self)@.listeners,
            ),
            final(self)@.max_listeners == old(self)@.max_listeners,
            final(self)@.user_data == old(self)@.user_data,
            final(self)@.listen_hook == old(self)@.listen_hook,
    {
        let notice = self.notify(NEW_LISTENER, &key, &callback);
        let listener = Listener { callback, once: mode.once, identity };
        (PendingListener { key, listener, prepend: mode.prepend }, notice)
    }

    /// Second step of registering a listener: registers it, appended, or
    /// with `prepend` placed before the first listener of the same event
    /// (appended when there is none). Hands back the name to give the listen
    /// hook: the event's string, or nothing for a symbol.
    pub fn finish_add(&mut self, pending: PendingListener<V>) -> (hook_event: Option<String>)
        ensures
            final(self)@ == (EmitterView {
                listeners: registered(old(self)@.listeners, pending@.0, pending@.1, pending@.2),
                ..old(self)@
            }),
            hook_event.deep_view() == match pending@.0 {
                EventKey::Str(name) => Some(name@),
                EventKey::Sym(_) => None,
            },
    {
        let PendingListener { key, listener, prepend } = pending;
        self.register(key, listener, prepend)
    }

    /// `off`: removes the most recently added listener of `key` whose
    /// callback is `identity`, and tells whether there was one. Node then
    /// emits `removeListener` with the event's name and the callback: emits
    /// it and hands back the notice to deliver.
    pub fn remove(&mut self, key: &EventKey, identity: Option<usize>) -> (result: (bool, Notice<V>))
        ensures
            ({
                let ls = old(self)@.listeners;
                let p = last_removable(ls, key@, identity);
                &&& final(self)@.max_listeners == old(self)@.max_listeners
                &&& final(self)@.user_data == old(self)@.user_data
                &&& final(self)@.listen_hook == old(self)@.listen_hook
                &&& if p >= 0 {
                    &&& result.0
                    &&& noticed(
                        ls.remove(p),
                        KeyView::Name(REMOVE_LISTENER@),
                        ls[p].0,
                        ls[p].1.callback,
                        result.1,
                        final(self)@.listeners,
                    )
                } else {
                    &&& !result.0
                    &&& empty_notice(result.1)
                    &&& final(self)@.listeners == ls
                }
            }),
    {
        match self.take_listener(key, identity) {
            Some((name, listener)) => {
                let notice = self.notify(REMOVE_LISTENER, &name, &listener.callback);
                (true, notice)
            },
            None => (false, Notice { had_listeners: false, firings: Vec::new(), args: Vec::new() }),
        }
    }

    /// The turn of a fired `once` listener: Node's `once` wrapper removes it
    /// through `removeListener` before calling it. Emits `removeListener`
    /// with the event's name and the callback, and hands back the notice to
    /// deliver and then the callback to call.
    pub fn announce_removal(&mut self, fired: FiredOnce<V>) -> (result: (Notice<V>, Rc<V>))
        ensures
            result.1 == fired@.1,
            noticed(
                old(self)@.listeners,
                KeyView::Name(REMOVE_LISTENER@),
                fired@.0,
                fired@.1,
                result.0,
                final(self)@.listeners,
            ),
            final(self)@.max_listeners == old(self)@.max_listeners,
            final(self)@.user_data == old(self)@.user_data,
            final(self)@.listen_hook == old(self)@.listen_hook,
    {
        let FiredOnce { key, callback } = fired;
        let notice = self.notify(REMOVE_LISTENER, &key, &callback);
        (notice, callback)
    }

    /// `eventNames`: each event that has a listener, once, in order of first
    /// registration, as a class-wrapped `SymbolOrStr` of its name.
    pub fn event_names(&self) -> (names: Vec<Value<V>>)
        ensures
            ({
                let keys = distinct_keys(self@.listeners);
                &&& names@.len() == keys.len()
                &&& forall|i: int|
                    0 <= i < keys.len() ==> carried(#[trigger] names@[i]) == Some(
                        key_value::<V>(keys[i]),
                    )
            }),
    {
        let ghost ls = self.listeners@;
        let mut raw: Vec<Value<V>> = Vec::new();
        let mut i: usize = 0;
        while i < self.listeners.len()
            invariant
                0 <= i <= ls.len(),
                ls == self@.listeners,
                raw@.len() == distinct_keys(ls.take(i as int)).len(),
                forall|j: int|
                    0 <= j < raw@.len() ==> #[trigger] raw@[j] == key_value::<V>(
                        distinct_keys(ls.take(i as int))[j],
                    ),
            decreases ls.len() - i,
        {
            let ghost keys = distinct_keys(ls.take(i as int));
            assert(ls.take(i + 1).drop_last() =~= ls.take(i as int));
            let key = &self.listeners[i].0;
            let mut seen = false;
            let mut j: usize = 0;
            while j < raw.len()
                invariant
                    0 <= j <= raw@.len(),
                    raw@.len() == keys.len(),
                    forall|m: int| 0 <= m < raw@.len() ==> #[trigger] raw@[m] == key_value::<V>(keys[m]),
                    seen == exists|m: int| 0 <= m < j && (#[trigger] keys[m])@ == key@,
                decreases raw@.len() - j,
            {
                proof {
                    lemma_key_names_value::<V>(*key, keys[j as int]);
                }
                if key_matches_value(key, &raw[j]) {
                    seen = true;
                }
                j = j + 1;
            }
            if !seen {
                raw.push(key.value());
            }
            i = i + 1;
        }
        assert(ls.take(i as int) =~= ls);
        let ghost keys = distinct_keys(ls);
        let mut names: Vec<Value<V>> = Vec::new();
        let mut k: usize = 0;
        while k < raw.len()
            invariant
                0 <= k <= raw@.len(),
                raw@.len() == keys.len(),
                forall|m: int| 0 <= m < raw@.len() ==> #[trigger] raw@[m] == key_value::<V>(keys[m]),
                names@.len() == k,
                forall|m: int| 0 <= m < k ==> carried(#[trigger] names@[m]) == Some(raw@[m]),
            decreases raw@.len() - k,
        {
            names.push(symbol_or_str_value(raw[k].duplicate()));
            k = k + 1;
        }
        names
    }

    /// The listener limit.
    pub fn max_listeners(&self) -> (max: i64)
        ensures
            max == self@.max_listeners,
    {
        self.max_listeners
    }

    /// Sets the listener limit.
    pub fn set_max_listeners(&mut self, max: i64)
        ensures
            final(self)@ == (EmitterView { max_listeners: max, ..old(self)@ }),
    {
        self.max_listeners = max;
    }

    /// Attaches opaque data to the emitter, replacing any earlier data.
    pub fn set_user_data(&mut self, data: Rc<V>)
        ensures
            final(self)@ == (EmitterView { user_data: Some(data), ..old(self)@ }),
    {
        self.user_data = Some(data);
    }

    /// Installs the hook to run after a listener is registered, replacing any
    /// earlier one. Native integrations use it to deliver state that happened
    /// before the listener existed.
    pub fn set_listen_hook(&mut self, hook: H)
        ensures
            final(self)@ == (EmitterView { listen_hook: Some(hook), ..old(self)@ }),
    {
        self.listen_hook = Some(hook);
    }

    /// The listen hook, if one is installed.
    pub fn listen_hook(&self) -> (hook: Option<&H>)
        ensures
            match hook {
                Some(h) => self@.listen_hook == Some(*h),
                None => self@.listen_hook is None,
            },
    {
        self.listen_hook.as_ref()
    }

    /// The data attached to the emitter, if any.
    pub fn user_data(&self) -> (data: Option<Rc<V>>)
        ensures
            data == self@.user_data,
    {
        match &self.user_data {
            Some(data) => Some(rc_clone(data)),
            None => None,
        }
    }
}

/// How a listener is registered: called once or every time, appended or
/// prepended.
pub struct ListenerMode {
    pub once: bool,
    pub prepend: bool,
}

/// The registration mode with the given flags.
pub fn listener_registration(once: bool, prepend: bool) -> (mode: ListenerMode)
    ensures
        mode == (ListenerMode { once, prepend }),
{
    ListenerMode { once, prepend }
}

/// `on`: a persistent listener, appended.
pub fn Node_EventEmitter_unsafeOn() -> (mode: ListenerMode)
    ensures
        mode == (ListenerMode { once: false, prepend: false }),
{
    listener_registration(false, false)
}

/// `once`: a listener removed after its first call, appended.
pub fn Node_EventEmitter_unsafeOnce() -> (mode: ListenerMode)
    ensures
        mode == (ListenerMode { once: true, prepend: false }),
{
    listener_registration(true, false)
}

/// `prependListener`: a persistent listener, placed first among its event's.
pub fn Node_EventEmitter_unsafePrependListener() -> (mode: ListenerMode)
    ensures
        mode == (ListenerMode { once: false, prepend: true }),
{
    listener_registration(false, true)
}

/// `prependOnceListener`: a listener called once, placed first among its
/// event's.
pub fn Node_EventEmitter_unsafePrependOnceListener() -> (mode: ListenerMode)
    ensures
        mode == (ListenerMode { once: true, prepend: true }),
{
    listener_registration(true, true)
}

/// The arguments of a `newListener` or `removeListener` notification: the
/// event's name wrapped as a `SymbolOrStr`, then the listener's callback.
pub fn listener_event_args<V>(key: &EventKey, callback: &Rc<V>) -> (args: Vec<Value<V>>)
    ensures
        args@.len() == 2,
        carried(args@[0]) == Some(key_value::<V>(*key)),
        args@[1] == Value::<V>::Other(*callback),
{
    let mut args: Vec<Value<V>> = Vec::new();
    args.push(symbol_or_str_value(key.value()));
    args.push(Value::Other(rc_clone(callback)));
    args
}

/// Whether two callbacks are the same: both identities known and equal.
pub fn same_callback(left: Option<usize>, right: Option<usize>) -> (same: bool)
    ensures
        same == same_identity(left, right),
{
    match (left, right) {
        (Some(left), Some(right)) => left == right,
        _ => false,
    }
}

proof fn lemma_first_match_at<V>(ls: Entries<V>, key: KeyView, i: int)
    requires
        0 <= i <= ls.len(),
        forall|j: int| 0 <= j < i ==> (#[trigger] ls[j]).0@ != key,
        i < ls.len() ==> ls[i].0@ == key,
    ensures
        first_match(ls, key) == i,
    decreases i,
{
    if i > 0 {
        lemma_first_match_at(ls.drop_first(), key, i - 1);
    }
}

proof fn lemma_last_removable_at<V>(ls: Entries<V>, key: KeyView, identity: Option<usize>, i: int)
    requires
        -1 <= i < ls.len(),
        forall|j: int|
            i < j < ls.len() ==> !((#[trigger] ls[j]).0@ == key && same_identity(
                ls[j].1.identity,
                identity,
            )),
        i >= 0 ==> ls[i].0@ == key && same_identity(ls[i].1.identity, identity),
    ensures
        last_removable(ls, key, identity) == i,
    decreases ls.len(),
{
    if ls.len() > 0 && i < ls.len() - 1 {
        assert(!(ls.last().0@ == key && same_identity(ls.last().1.identity, identity))) by {
            assert(ls.last() == ls[ls.len() - 1]);
        }
        assert forall|j: int| i < j < ls.drop_last().len() implies !((#[trigger] ls.drop_last()[
            j
        ]).0@ == key && same_identity(ls.drop_last()[j].1.identity, identity)) by {
            assert(ls.drop_last()[j] == ls[j]);
        }
        if i >= 0 {
            assert(ls.drop_last()[i] == ls[i]);
        }
        lemma_last_removable_at(ls.drop_last(), key, identity, i);
    }
}

proof fn lemma_first_match_props<V>(ls: Entries<V>, key: KeyView)
    ensures
        0 <= first_match(ls, key) <= ls.len(),
        forall|j: int| 0 <= j < first_match(ls, key) ==> (#[trigger] ls[j]).0@ != key,
        first_match(ls, key) < ls.len() ==> ls[first_match(ls, key)].0@ == key,
    decreases ls.len(),
{
    if ls.len() > 0 && ls[0].0@ != key {
        lemma_first_match_props(ls.drop_first(), key);
        assert forall|j: int| 0 <= j < first_match(ls, key) implies (#[trigger] ls[j]).0@ != key by {
            if j > 0 {
                assert(ls[j] == ls.drop_first()[j - 1]);
            }
        }
    }
}

proof fn lemma_last_removable_props<V>(ls: Entries<V>, key: KeyView, identity: Option<usize>)
    ensures
        -1 <= last_removable(ls, key, identity) < ls.len(),
        forall|j: int|
            last_removable(ls, key, identity) < j < ls.len() ==> !((#[trigger] ls[j]).0@ == key
                && same_identity(ls[j].1.identity, identity)),
        last_removable(ls, key, identity) >= 0 ==> ({
            let p = last_removable(ls, key, identity);
            ls[p].0@ == key && same_identity(ls[p].1.identity, identity)
        }),
    decreases ls.len(),
{
    if ls.len() > 0 {
        let dl = ls.drop_last();
        if !(ls.last().0@ == key && same_identity(ls.last().1.identity, identity)) {
            lemma_last_removable_props(dl, key, identity);
            let p = last_removable(ls, key, identity);
            assert forall|j: int| p < j < ls.len() implies !((#[trigger] ls[j]).0@ == key
                && same_identity(ls[j].1.identity, identity)) by {
                if j < dl.len() {
                    assert(ls[j] == dl[j]);
                } else {
                    assert(ls[j] == ls.last());
                }
            }
            if p >= 0 {
                assert(ls[p] == dl[p]);
            }
        }
    }
}

proof fn lemma_fired_none<V>(ls: Entries<V>, key: KeyView)
    requires
        forall|j: int| 0 <= j < ls.len() ==> (#[trigger] ls[j]).0@ != key,
    ensures
        fired(ls, key) == Seq::<(EventKey, Listener<V>)>::empty(),
    decreases ls.len(),
{
    if ls.len() > 0 {
        assert forall|j: int| 0 <= j < ls.drop_last().len() implies (#[trigger] ls.drop_last()[
            j
        ]).0@ != key by {
            assert(ls.drop_last()[j] == ls[j]);
        }
        lemma_fired_none(ls.drop_last(), key);
    }
}

/// `emit` reports listeners exactly when `listenerCount` is positive: it
/// calls as many listeners as the event has.
pub proof fn lemma_emit_calls_each_listener<V>(ls: Entries<V>, key: KeyView)
    ensures
        fired(ls, key).len() == matching_indices(ls, key).len(),
    decreases ls.len(),
{
    if ls.len() > 0 {
        lemma_emit_calls_each_listener(ls.drop_last(), key);
    }
}

/// A `once` listener is called at most once: after an emit no `once`
/// listener of that event is left.
pub proof fn lemma_emit_drops_once_listeners<V>(ls: Entries<V>, key: KeyView)
    ensures
        forall|i: int|
            0 <= i < kept(ls, key).len() && (#[trigger] kept(ls, key)[i]).0@ == key
                ==> !kept(ls, key)[i].1.once,
    decreases ls.len(),
{
    if ls.len() > 0 {
        lemma_emit_drops_once_listeners(ls.drop_last(), key);
        let rest = kept(ls.drop_last(), key);
        assert forall|i: int|
            0 <= i < kept(ls, key).len() && (#[trigger] kept(ls, key)[i]).0@ == key
                implies !kept(ls, key)[i].1.once by {
            if i < rest.len() {
                assert(kept(ls, key)[i] == rest[i]);
            }
        }
    }
}

proof fn lemma_kept_unchanged<V>(ls: Entries<V>, key: KeyView)
    requires
        forall|i: int| 0 <= i < ls.len() && (#[trigger] ls[i]).0@ == key ==> !ls[i].1.once,
    ensures
        kept(ls, key) == ls,
    decreases ls.len(),
{
    if ls.len() > 0 {
        assert forall|i: int|
            0 <= i < ls.drop_last().len() && (#[trigger] ls.drop_last()[i]).0@ == key
                implies !ls.drop_last()[i].1.once by {
            assert(ls.drop_last()[i] == ls[i]);
        }
        lemma_kept_unchanged(ls.drop_last(), key);
        assert(ls.drop_last().push(ls.last()) =~= ls);
    }
}

/// Emitting an event a second time removes no more listeners.
pub proof fn lemma_emit_again_keeps_all<V>(ls: Entries<V>, key: KeyView)
    ensures
        kept(kept(ls, key), key) == kept(ls, key),
{
    lemma_emit_drops_once_listeners(ls, key);
    lemma_kept_unchanged(kept(ls, key), key);
}

/// Emitting one event leaves what every other event calls unchanged.
pub proof fn lemma_emit_leaves_other_events<V>(ls: Entries<V>, key: KeyView, other: KeyView)
    requires
        key != other,
    ensures
        fired(kept(ls, key), other) == fired(ls, other),
        matching_indices(kept(ls, key), other).len() == matching_indices(ls, other).len(),
    decreases ls.len(),
{
    if ls.len() > 0 {
        lemma_emit_leaves_other_events(ls.drop_last(), key, other);
        let rest = kept(ls.drop_last(), key);
        if !(ls.last().0@ == key && ls.last().1.once) {
            assert(rest.push(ls.last()).drop_last() =~= rest);
        }
    }
}

/// A listener added with `on` or `once` is called after the listeners
/// already there; other events are not affected.
pub proof fn lemma_append_fires_last<V>(ls: Entries<V>, key: EventKey, listener: Listener<V>, event: KeyView)
    ensures
        fired(registered(ls, key, listener, false), event) == if key@ == event {
            fired(ls, event).push((key, listener))
        } else {
            fired(ls, event)
        },
        matching_indices(registered(ls, key, listener, false), event).len()
            == matching_indices(ls, event).len() + if key@ == event { 1int } else { 0int },
{
    assert(ls.push((key, listener)).drop_last() =~= ls);
}

/// A listener added with `prependListener` or `prependOnceListener` is
/// called before the listeners already there; other events are not
/// affected.
pub proof fn lemma_prepend_fires_first<V>(ls: Entries<V>, key: EventKey, listener: Listener<V>, event: KeyView)
    ensures
        fired(registered(ls, key, listener, true), event) == if key@ == event {
            seq![(key, listener)] + fired(ls, event)
        } else {
            fired(ls, event)
        },
    decreases ls.len(),
{
    let p = first_match(ls, key@);
    lemma_first_match_props(ls, key@);
    let ls2 = ls.insert(p, (key, listener));
    if p == ls.len() {
        assert(ls2 =~= ls.push((key, listener)));
        assert(ls2.drop_last() =~= ls);
        if key@ == event {
            lemma_fired_none(ls, event);
            assert(fired(ls, event).push((key, listener)) =~= seq![(key, listener)] + fired(ls, event));
        }
    } else {
        let dl = ls.drop_last();
        lemma_first_match_at(dl, key@, p);
        lemma_prepend_fires_first(dl, key, listener, event);
        assert(ls2.drop_last() =~= dl.insert(p, (key, listener)));
        assert(ls2.last() == ls.last());
        if key@ == event {
            let a = fired(dl, event);
            if ls.last().0@ == event {
                assert((seq![(key, listener)] + a).push(ls.last()) =~= seq![(key, listener)] + a.push(
                    ls.last(),
                ));
            }
        }
    }
}

/// `off` undoes `on`: removing, by its identity, a listener just added with
/// `on` or `once` takes out that listener, the most recently added, and
/// gives the listeners back as they were.
pub proof fn lemma_off_undoes_append<V>(
    ls: Entries<V>,
    key: EventKey,
    listener: Listener<V>,
    identity: Option<usize>,
)
    requires
        same_identity(listener.identity, identity),
    ensures
        ({
            let ls2 = registered(ls, key, listener, false);
            &&& last_removable(ls2, key@, identity) == ls.len()
            &&& ls2.remove(ls.len() as int) == ls
        }),
{
    let ls2 = ls.push((key, listener));
    lemma_last_removable_at(ls2, key@, identity, ls.len() as int);
    assert(ls2.remove(ls.len() as int) =~= ls);
}

/// `off` undoes `prependListener`: removing, by its identity, a listener just
/// prepended gives the listeners back as they were, provided no other
/// listener of that event has the same callback.
pub proof fn lemma_off_undoes_prepend<V>(
    ls: Entries<V>,
    key: EventKey,
    listener: Listener<V>,
    identity: Option<usize>,
)
    requires
        last_removable(ls, key@, identity) == -1,
        same_identity(listener.identity, identity),
    ensures
        ({
            let p = first_match(ls, key@);
            let ls2 = registered(ls, key, listener, true);
            &&& last_removable(ls2, key@, identity) == p
            &&& ls2.remove(p) == ls
        }),
{
    let p = first_match(ls, key@);
    lemma_first_match_props(ls, key@);
    lemma_last_removable_props(ls, key@, identity);
    let ls2 = ls.insert(p, (key, listener));
    assert forall|j: int| p < j < ls2.len() implies !((#[trigger] ls2[j]).0@ == key@
        && same_identity(ls2[j].1.identity, identity)) by {
        assert(ls2[j] == ls[j - 1]);
    }
    lemma_last_removable_at(ls2, key@, identity, p);
    assert(ls2.remove(p) =~= ls);
}

/// How many times `entry` occurs in `ls`.
pub open spec fn occurrences<V>(ls: Entries<V>, entry: (EventKey, Listener<V>)) -> nat
    decreases ls.len(),
{
    if ls.len() == 0 {
        0
    } else {
        occurrences(ls.drop_last(), entry) + if ls.last() == entry { 1nat } else { 0nat }
    }
}

/// Emitting `keys` one after another from `ls`: the listeners left, and all
/// the listeners called, in order.
pub open spec fn emit_all<V>(ls: Entries<V>, keys: Seq<KeyView>) -> (Entries<V>, Entries<V>)
    decreases keys.len(),
{
    if keys.len() == 0 {
        (ls, Seq::empty())
    } else {
        let (left, called) = emit_all(ls, keys.drop_last());
        (kept(left, keys.last()), called + fired(left, keys.last()))
    }
}

proof fn lemma_occurrences_concat<V>(a: Entries<V>, b: Entries<V>, entry: (EventKey, Listener<V>))
    ensures
        occurrences(a + b, entry) == occurrences(a, entry) + occurrences(b, entry),
    decreases b.len(),
{
    if b.len() > 0 {
        assert((a + b).drop_last() =~= a + b.drop_last());
        assert((a + b).last() == b.last());
        lemma_occurrences_concat(a, b.drop_last(), entry);
    }
}

proof fn lemma_once_emit_step<V>(ls: Entries<V>, key: KeyView, entry: (EventKey, Listener<V>))
    requires
        entry.1.once,
    ensures
        occurrences(fired(ls, key), entry) + occurrences(kept(ls, key), entry) == occurrences(
            ls,
            entry,
        ),
    decreases ls.len(),
{
    if ls.len() > 0 {
        lemma_once_emit_step(ls.drop_last(), key, entry);
        let f = fired(ls.drop_last(), key);
        let k = kept(ls.drop_last(), key);
        if ls.last().0@ == key {
            assert(f.push(ls.last()).drop_last() =~= f);
            assert(k.push(ls.last()).drop_last() =~= k);
        } else {
            assert(k.push(ls.last()).drop_last() =~= k);
        }
    }
}

/// A `once` listener is called at most once over any run of emits, nested
/// ones included: each registration of it is called by at most one emit,
/// after which it is gone.
pub proof fn lemma_once_called_at_most_once<V>(
    ls: Entries<V>,
    keys: Seq<KeyView>,
    entry: (EventKey, Listener<V>),
)
    requires
        entry.1.once,
    ensures
        occurrences(emit_all(ls, keys).1, entry) + occurrences(emit_all(ls, keys).0, entry)
            == occurrences(ls, entry),
        occurrences(emit_all(ls, keys).1, entry) <= occurrences(ls, entry),
    decreases keys.len(),
{
    if keys.len() > 0 {
        lemma_once_called_at_most_once(ls, keys.drop_last(), entry);
        let (left, called) = emit_all(ls, keys.drop_last());
        lemma_once_emit_step(left, keys.last(), entry);
        lemma_occurrences_concat(called, fired(left, keys.last()), entry);
    }
}

/// `eventNames` names each event that has a listener, and each only once.
#[verifier::rlimit(40)]
pub proof fn lemma_event_names_distinct_and_complete<V>(ls: Entries<V>)
    ensures
        forall|i: int, j: int|
            0 <= i < distinct_keys(ls).len() && 0 <= j < distinct_keys(ls).len() && i != j
                ==> (#[trigger] distinct_keys(ls)[i])@ != (#[trigger] distinct_keys(ls)[j])@,
        forall|i: int|
            0 <= i < ls.len() ==> exists|j: int|
                0 <= j < distinct_keys(ls).len() && (#[trigger] distinct_keys(ls)[j])@ == (
                #[trigger] ls[i]).0@,
        forall|j: int|
            0 <= j < distinct_keys(ls).len() ==> exists|i: int|
                0 <= i < ls.len() && (#[trigger] ls[i]).0@ == (#[trigger] distinct_keys(ls)[j])@,
    decreases ls.len(),
{
    if ls.len() > 0 {
        let dl = ls.drop_last();
        lemma_event_names_distinct_and_complete(dl);
        let rest = distinct_keys(dl);
        let d = distinct_keys(ls);
        assert forall|i: int| 0 <= i < ls.len() implies exists|j: int|
            0 <= j < d.len() && (#[trigger] d[j])@ == (#[trigger] ls[i]).0@ by {
            if i < dl.len() {
                assert(ls[i] == dl[i]);
                let j = choose|j: int| 0 <= j < rest.len() && (#[trigger] rest[j])@ == (
                #[trigger] dl[i]).0@;
                assert(d[j] == rest[j]);
            } else {
                if exists|j: int| 0 <= j < rest.len() && (#[trigger] rest[j])@ == ls.last().0@ {
                    let j = choose|j: int|
                        0 <= j < rest.len() && (#[trigger] rest[j])@ == ls.last().0@;
                    assert(d[j] == rest[j]);
                } else {
                    assert(d[rest.len() as int] == ls.last().0);
                }
            }
        }
        assert forall|j: int| 0 <= j < d.len() implies exists|i: int|
            0 <= i < ls.len() && (#[trigger] ls[i]).0@ == (#[trigger] d[j])@ by {
            if j < rest.len() {
                assert(d[j] == rest[j]);
                let i = choose|i: int| 0 <= i < dl.len() && (#[trigger] dl[i]).0@ == (
                #[trigger] rest[j])@;
                assert(ls[i] == dl[i]);
            } else {
                assert(ls[ls.len() - 1] == ls.last());
            }
        }
    }
}

proof fn lemma_count_insert<V>(ls: Entries<V>, i: int, entry: (EventKey, Listener<V>), event: KeyView)
    requires
        0 <= i <= ls.len(),
    ensures
        matching_indices(ls.insert(i, entry), event).len() == matching_indices(ls, event).len()
            + if entry.0@ == event { 1int } else { 0int },
    decreases ls.len(),
{
    let ls2 = ls.insert(i, entry);
    if i == ls.len() {
        assert(ls2.drop_last() =~= ls);
    } else {
        let dl = ls.drop_last();
        lemma_count_insert(dl, i, entry, event);
        assert(ls2.drop_last() =~= dl.insert(i, entry));
        assert(ls2.last() == ls.last());
    }
}

/// Registering a listener, appended or prepended, adds one to its event's
/// `listenerCount` and leaves the other events' counts.
pub proof fn lemma_registration_counts<V>(
    ls: Entries<V>,
    key: EventKey,
    listener: Listener<V>,
    prepend: bool,
    event: KeyView,
)
    ensures
        matching_indices(registered(ls, key, listener, prepend), event).len()
            == matching_indices(ls, event).len() + if key@ == event { 1int } else { 0int },
{
    lemma_first_match_props(ls, key@);
    if prepend {
        lemma_count_insert(ls, first_match(ls, key@), (key, listener), event);
    } else {
        assert(ls.push((key, listener)) =~= ls.insert(ls.len() as int, (key, listener)));
        lemma_count_insert(ls, ls.len() as int, (key, listener), event);
    }
}

/// The state after setting the listener limit to each of `maxes` in turn.
pub open spec fn after_max_settings<V, H>(state: EmitterView<V, H>, maxes: Seq<i64>) -> EmitterView<V, H>
    decreases maxes.len(),
{
    if maxes.len() == 0 {
        state
    } else {
        EmitterView { max_listeners: maxes.last(), ..after_max_settings(state, maxes.drop_last()) }
    }
}

/// The state after attaching each of `data` in turn.
pub open spec fn after_data_settings<V, H>(state: EmitterView<V, H>, data: Seq<Rc<V>>) -> EmitterView<V, H>
    decreases data.len(),
{
    if data.len() == 0 {
        state
    } else {
        EmitterView { user_data: Some(data.last()), ..after_data_settings(state, data.drop_last()) }
    }
}

/// After any run of `set_max_listeners`, `max_listeners` reads the last
/// value set, or the earlier one when there was none; after any run of
/// `set_user_data`, `user_data` hands back the last data attached, or the
/// earlier data when there was none; neither touches the listeners.
pub proof fn lemma_last_setting_wins<V, H>(state: EmitterView<V, H>, maxes: Seq<i64>, data: Seq<Rc<V>>)
    ensures
        after_max_settings(state, maxes).max_listeners == if maxes.len() == 0 {
            state.max_listeners
        } else {
            maxes.last()
        },
        after_max_settings(state, maxes).listeners == state.listeners,
        after_max_settings(state, maxes).user_data == state.user_data,
        after_data_settings(state, data).user_data == if data.len() == 0 {
            state.user_data
        } else {
            Some(data.last())
        },
        after_data_settings(state, data).listeners == state.listeners,
        after_data_settings(state, data).max_listeners == state.max_listeners,
    decreases maxes.len() + data.len(),
{
    if maxes.len() > 0 {
        lemma_last_setting_wins(state, maxes.drop_last(), Seq::empty());
    }
    if data.len() > 0 {
        lemma_last_setting_wins(state, Seq::empty(), data.drop_last());
    }
}

/// What `set_max_listeners` stores, `max_listeners` reads back; what
/// `set_user_data` attaches, `user_data` hands back; what `set_listen_hook`
/// installs, `listen_hook` hands back; none of them touches the listeners.
pub proof fn lemma_settings_read_back<V, H>(state: EmitterView<V, H>, max: i64, data: Rc<V>, hook: H)
    ensures
        (EmitterView { listen_hook: Some(hook), ..state }).listen_hook == Some(hook),
        (EmitterView { listen_hook: Some(hook), ..state }).listeners == state.listeners,
        (EmitterView { max_listeners: max, ..state }).max_listeners == max,
        (EmitterView { max_listeners: max, ..state }).listeners == state.listeners,
        (EmitterView { user_data: Some(data), ..state }).user_data == Some(data),
        (EmitterView { user_data: Some(data), ..state }).listeners == state.listeners,
{
}

/// Emitting keeps registration order: the listeners that an emit calls are
/// exactly the event's listeners, as a subsequence of all listeners, and the
/// listeners left are exactly all listeners but the event's `once` ones, in
/// their old relative order.
pub proof fn lemma_emit_keeps_registration_order<V>(ls: Entries<V>, key: KeyView)
    ensures
        fired(ls, key) == ls.filter(|e: (EventKey, Listener<V>)| e.0@ == key),
        kept(ls, key) == ls.filter(|e: (EventKey, Listener<V>)| !(e.0@ == key && e.1.once)),
    decreases ls.len(),
{
    reveal(Seq::filter);
    if ls.len() > 0 {
        lemma_emit_keeps_registration_order(ls.drop_last(), key);
    }
}

/// A second emit of an event calls exactly the persistent listeners that
/// the first one called, in the same order.
pub proof fn lemma_second_emit_calls_persistent_in_order<V>(ls: Entries<V>, key: KeyView)
    ensures
        fired(kept(ls, key), key) == fired(ls, key).filter(|e: (EventKey, Listener<V>)| !e.1.once),
    decreases ls.len(),
{
    reveal(Seq::filter);
    if ls.len() > 0 {
        let dl = ls.drop_last();
        lemma_second_emit_calls_persistent_in_order(dl, key);
        let k = kept(dl, key);
        let f = fired(dl, key);
        if ls.last().0@ == key {
            assert(f.push(ls.last()).drop_last() =~= f);
            if !ls.last().1.once {
                assert(k.push(ls.last()).drop_last() =~= k);
            }
        } else {
            assert(k.push(ls.last()).drop_last() =~= k);
        }
    }
}

/// The first listener of event `x` comes before every listener of event `y`.
spec fn first_before<V>(ls: Entries<V>, x: KeyView, y: KeyView) -> bool {
    exists|a: int|
        0 <= a < ls.len() && (#[trigger] ls[a]).0@ == x && forall|b: int|
            0 <= b < ls.len() && (#[trigger] ls[b]).0@ == y ==> a < b
}

proof fn lemma_first_before_grows<V>(ls: Entries<V>, x: KeyView, y: KeyView)
    requires
        ls.len() > 0,
        first_before(ls.drop_last(), x, y),
    ensures
        first_before(ls, x, y),
{
    let dl = ls.drop_last();
    let a = choose|a: int|
        0 <= a < dl.len() && (#[trigger] dl[a]).0@ == x && forall|b: int|
            0 <= b < dl.len() && (#[trigger] dl[b]).0@ == y ==> a < b;
    assert(ls[a] == dl[a]);
    assert forall|b: int| 0 <= b < ls.len() && (#[trigger] ls[b]).0@ == y implies a < b by {
        if b < dl.len() {
            assert(ls[b] == dl[b]);
        }
    }
}

proof fn lemma_first_before_new<V>(ls: Entries<V>, x: KeyView, a: int)
    requires
        0 <= a < ls.len() - 1,
        ls[a].0@ == x,
        forall|b: int| 0 <= b < ls.len() - 1 ==> (#[trigger] ls[b]).0@ != ls.last().0@,
    ensures
        first_before(ls, x, ls.last().0@),
{
    assert forall|b: int| 0 <= b < ls.len() && (#[trigger] ls[b]).0@ == ls.last().0@ implies a < b by {
    }
}

#[verifier::rlimit(30)]
proof fn lemma_names_first_before<V>(ls: Entries<V>)
    ensures
        forall|i: int, j: int|
            #![trigger distinct_keys(ls)[i], distinct_keys(ls)[j]]
            0 <= i < j < distinct_keys(ls).len() ==> first_before(
                ls,
                distinct_keys(ls)[i]@,
                distinct_keys(ls)[j]@,
            ),
    decreases ls.len(),
{
    if ls.len() > 0 {
        let dl = ls.drop_last();
        lemma_names_first_before(dl);
        lemma_event_names_distinct_and_complete(dl);
        let rest = distinct_keys(dl);
        let d = distinct_keys(ls);
        let last = ls.last().0;
        assert forall|i: int, j: int|
            #![trigger d[i], d[j]]
            0 <= i < j < d.len() implies first_before(ls, d[i]@, d[j]@) by {
            assert(d[i] == rest[i]);
            if j < rest.len() {
                assert(d[j] == rest[j]);
                lemma_first_before_grows(ls, rest[i]@, rest[j]@);
            } else {
                assert(d[j] == last);
                assert(!exists|m: int| 0 <= m < rest.len() && (#[trigger] rest[m])@ == last@);
                let a = choose|a: int| 0 <= a < dl.len() && (#[trigger] dl[a]).0@ == (#[trigger] rest[i])@;
                assert(ls[a] == dl[a]);
                assert forall|b: int| 0 <= b < ls.len() - 1 implies (#[trigger] ls[b]).0@ != ls.last().0@ by {
                    assert(ls[b] == dl[b]);
                    let m = choose|m: int| 0 <= m < rest.len() && (#[trigger] rest[m])@ == (#[trigger] dl[b]).0@;
                }
                lemma_first_before_new(ls, rest[i]@, a);
            }
        }
    }
}

/// `eventNames` lists the events in order of first registration: two names
/// are different events, and the first listener of the earlier name comes
/// before every listener of the later one.
pub proof fn lemma_event_names_in_registration_order<V>(ls: Entries<V>)
    ensures
        forall|i: int, j: int|
            #![trigger distinct_keys(ls)[i], distinct_keys(ls)[j]]
            0 <= i < j < distinct_keys(ls).len() ==> distinct_keys(ls)[i]@ != distinct_keys(ls)[j]@
                && exists|a: int|
                0 <= a < ls.len() && (#[trigger] ls[a]).0@ == distinct_keys(ls)[i]@ && forall|b: int|
                    0 <= b < ls.len() && (#[trigger] ls[b]).0@ == distinct_keys(ls)[j]@ ==> a < b,
{
    lemma_names_first_before(ls);
    lemma_event_names_distinct_and_complete(ls);
}

} // verus!
